use vstd::prelude::*;

use crate::error::{Error, ErrorKind};
use crate::path::seg_views;

verus! {

#[verifier::external_type_specification]
#[verifier::external_body]
pub struct ExGlob(globset::Glob);

#[verifier::external_type_specification]
#[verifier::external_body]
pub struct ExGlobSet(globset::GlobSet);

/// Whether the glob parser accepts the pattern `pattern`.
pub uninterp spec fn glob_compiles(pattern: Seq<char>) -> bool;

/// Whether a set of parsed patterns compiles into one matcher.
pub uninterp spec fn glob_set_builds(patterns: Seq<Seq<char>>) -> bool;

/// Whether the path text `path` matches the glob pattern `pattern`.
pub uninterp spec fn glob_accepts(pattern: Seq<char>, path: Seq<char>) -> bool;

/// The most characters, over all patterns of one set, that a set is built from.
pub const GLOB_TEXT_LIMIT: usize = 1048576;

/// The number of characters of all the patterns together.
pub open spec fn total_len(patterns: Seq<Seq<char>>) -> int
    decreases patterns.len(),
{
    if patterns.len() == 0 {
        0
    } else {
        total_len(patterns.drop_last()) + patterns.last().len()
    }
}

/// The patterns can be made into a `Globber`: none is too long in total, each
/// parses, and together they compile.
pub open spec fn globber_builds(patterns: Seq<Seq<char>>) -> bool {
    &&& total_len(patterns) <= GLOB_TEXT_LIMIT as int
    &&& forall|i: int| 0 <= i < patterns.len() ==> glob_compiles(#[trigger] patterns[i])
    &&& glob_set_builds(patterns)
}

/// Some pattern of `patterns` accepts `path`.
pub open spec fn any_accepts(patterns: Seq<Seq<char>>, path: Seq<char>) -> bool {
    exists|i: int| 0 <= i < patterns.len() && glob_accepts(#[trigger] patterns[i], path)
}

/// A pattern together with its parse. Only `parse_glob` builds one, so the
/// parse is always that of the text.
pub struct ParsedGlob {
    text: String,
    glob: globset::Glob,
}

impl ParsedGlob {
    /// The pattern text.
    pub closed spec fn text(&self) -> Seq<char> {
        self.text@
    }
}

/// The texts of a sequence of parsed patterns.
pub open spec fn texts(gs: Seq<ParsedGlob>) -> Seq<Seq<char>> {
    gs.map_values(|g: ParsedGlob| g.text())
}

/// Relies on globset::Glob::new, with its default options: whether a pattern
/// parses depends on its text alone.
#[verifier::external_body]
fn parse_glob(pattern: &str) -> (r: Option<ParsedGlob>)
    ensures
        r.is_some() == glob_compiles(pattern@),
        r matches Some(g) ==> g.text() == pattern@,
{
    globset::Glob::new(pattern).ok().map(|g| ParsedGlob { text: pattern.to_owned(), glob: g })
}

/// Relies on globset::GlobSet::new, which reports a pattern set whose regex
/// cannot be built as an error. The bound on the total text of the patterns
/// it receives keeps the literal matchers that the set builds (whose
/// construction is unwrapped) far below their size limits.
#[verifier::external_body]
fn build_set(globs: &Vec<ParsedGlob>) -> (r: Option<globset::GlobSet>)
    requires
        total_len(texts(globs@)) <= GLOB_TEXT_LIMIT as int,
    ensures
        r.is_some() == glob_set_builds(texts(globs@)),
{
    globset::GlobSet::new(globs.iter().map(|g| &g.glob)).ok()
}

/// One or more compiled glob patterns; a path matches when any pattern does.
pub struct Globber {
    patterns: Vec<String>,
    set: globset::GlobSet,
}

impl Globber {
    /// The patterns, in the order they were given.
    pub closed spec fn patterns(&self) -> Seq<Seq<char>> {
        seg_views(self.patterns@)
    }

    /// Compiles one pattern.
    pub fn new(pattern: &str) -> (r: Result<Globber, Error>)
        ensures
            globber_builds(seq![pattern@]) ==> r is Ok && r->Ok_0.patterns() == seq![pattern@],
            !globber_builds(seq![pattern@]) ==> r is Err && r->Err_0.kind == ErrorKind::InvalidInput,
    {
        let mut patterns: Vec<String> = Vec::new();
        patterns.push(pattern.to_owned());
        proof {
            assert(seg_views(patterns@) =~= seq![pattern@]);
        }
        Self::new_set(&patterns)
    }

    /// Compiles every pattern; fails where they cannot all be compiled together.
    pub fn new_set(patterns: &Vec<String>) -> (r: Result<Globber, Error>)
        ensures
            globber_builds(seg_views(patterns@)) ==> r is Ok && r->Ok_0.patterns() == seg_views(patterns@),
            !globber_builds(seg_views(patterns@)) ==> r is Err && r->Err_0.kind == ErrorKind::InvalidInput,
    {
        let ghost pv = seg_views(patterns@);
        let mut globs: Vec<ParsedGlob> = Vec::new();
        let mut total: usize = 0;
        let mut i: usize = 0;
        proof {
            assert(pv.subrange(0, 0) =~= Seq::<Seq<char>>::empty());
            assert(texts(globs@) =~= Seq::<Seq<char>>::empty());
        }
        while i < patterns.len()
            invariant
                pv == seg_views(patterns@),
                i <= patterns.len(),
                texts(globs@) == pv.subrange(0, i as int),
                total as int == total_len(pv.subrange(0, i as int)),
                total <= GLOB_TEXT_LIMIT,
                forall|j: int| 0 <= j < i ==> glob_compiles(#[trigger] pv[j]),
            decreases patterns.len() - i,
        {
            proof {
                assert(pv.subrange(0, i + 1).drop_last() =~= pv.subrange(0, i as int));
                assert(pv[i as int] == patterns@[i as int]@);
            }
            let n = patterns[i].unicode_len();
            if n > GLOB_TEXT_LIMIT - total {
                proof {
                    lemma_total_len_grows(pv, i as int + 1);
                }
                return Err(Error::new(ErrorKind::InvalidInput, "glob patterns too long"));
            }
            total = total + n;
            match parse_glob(patterns[i].as_str()) {
                Some(g) => {
                    let ghost before = globs@;
                    globs.push(g);
                    proof {
                        assert(texts(globs@) =~= texts(before).push(pv[i as int]));
                        assert(pv.subrange(0, i + 1) =~= pv.subrange(0, i as int).push(pv[i as int]));
                    }
                },
                None => {
                    return Err(Error::new(ErrorKind::InvalidInput, "invalid glob pattern"));
                },
            }
            i = i + 1;
        }
        proof {
            assert(pv.subrange(0, patterns.len() as int) =~= pv);
        }
        match build_set(&globs) {
            Some(set) => Ok(Globber { patterns: patterns.clone(), set }),
            None => Err(Error::new(ErrorKind::InvalidInput, "glob patterns do not compile together")),
        }
    }

    /// Relies on globset::GlobSet::is_match, which is documented to answer
    /// whether any glob of the set matches the path. `new_set`, the only code
    /// that builds a `Globber`, builds the set from the parses of `patterns`.
    #[verifier::external_body]
    pub fn is_match(&self, path: &str) -> (r: bool)
        ensures
            r == any_accepts(self.patterns(), path@),
            r == (exists|i: int| 0 <= i < self.patterns().len() && glob_accepts(#[trigger] self.patterns()[i], path@)),
    {
        self.set.is_match(path)
    }
}

/// A prefix's total length is at most the whole's.
pub proof fn lemma_total_len_grows(p: Seq<Seq<char>>, k: int)
    requires
        0 <= k <= p.len(),
    ensures
        total_len(p.subrange(0, k)) <= total_len(p),
    decreases p.len() - k,
{
    if k < p.len() {
        assert(p.subrange(0, k + 1).drop_last() =~= p.subrange(0, k));
        lemma_total_len_grows(p, k + 1);
    } else {
        assert(p.subrange(0, k) =~= p);
    }
}

} // verus!
