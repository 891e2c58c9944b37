use vstd::prelude::*;

verus! {

/// The character views of a sequence of strings.
pub open spec fn seg_views(v: Seq<String>) -> Seq<Seq<char>> {
    v.map_values(|s: String| s@)
}

/// Splitting `s` at every `/`: the pieces completed so far and the piece in progress.
pub open spec fn split_acc(s: Seq<char>) -> (Seq<Seq<char>>, Seq<char>)
    decreases s.len(),
{
    if s.len() == 0 {
        (Seq::empty(), Seq::empty())
    } else {
        let prev = split_acc(s.drop_last());
        if s.last() == '/' {
            (prev.0.push(prev.1), Seq::empty())
        } else {
            (prev.0, prev.1.push(s.last()))
        }
    }
}

/// The pieces of `s` between its `/` characters (empty pieces included).
pub open spec fn split_raw(s: Seq<char>) -> Seq<Seq<char>> {
    let p = split_acc(s);
    p.0.push(p.1)
}

/// Applies one raw piece to a normalized location: empty pieces and `.` are
/// skipped, `..` goes up one level (and fails at the root), anything else goes down.
pub open spec fn step(base: Seq<Seq<char>>, seg: Seq<char>) -> Option<Seq<Seq<char>>> {
    if seg.len() == 0 || seg == seq!['.'] {
        Some(base)
    } else if seg == seq!['.', '.'] {
        if base.len() == 0 {
            None
        } else {
            Some(base.drop_last())
        }
    } else {
        Some(base.push(seg))
    }
}

/// Applies the raw pieces in order, starting at `base`.
pub open spec fn normalize(base: Seq<Seq<char>>, raw: Seq<Seq<char>>) -> Option<Seq<Seq<char>>>
    decreases raw.len(),
{
    if raw.len() == 0 {
        Some(base)
    } else {
        match normalize(base, raw.drop_last()) {
            Some(b) => step(b, raw.last()),
            None => None,
        }
    }
}

/// The location that the path text `s` denotes relative to `base`, or `None`
/// when it climbs above the root.
pub open spec fn resolved(base: Seq<Seq<char>>, s: Seq<char>) -> Option<Seq<Seq<char>>> {
    normalize(base, split_raw(s))
}

/// A segment of a normalized location.
pub open spec fn valid_segment(seg: Seq<char>) -> bool {
    &&& seg.len() > 0
    &&& !seg.contains('/')
    &&& seg != seq!['.']
    &&& seg != seq!['.', '.']
}

pub open spec fn valid_location(segs: Seq<Seq<char>>) -> bool {
    forall|i: int| 0 <= i < segs.len() ==> valid_segment(#[trigger] segs[i])
}

/// `/a/b` for the segments `a`, `b`: a `/` before each segment.
pub open spec fn joined(segs: Seq<Seq<char>>) -> Seq<char>
    decreases segs.len(),
{
    if segs.len() == 0 {
        Seq::empty()
    } else {
        joined(segs.drop_last()) + seq!['/'] + segs.last()
    }
}

/// The string form of a location: `/` for the root, else `/a/b/c`.
pub open spec fn path_text(segs: Seq<Seq<char>>) -> Seq<char> {
    if segs.len() == 0 {
        seq!['/']
    } else {
        joined(segs)
    }
}

/// The index of the last `.` in `s`.
pub open spec fn last_dot(s: Seq<char>) -> Option<int>
    decreases s.len(),
{
    if s.len() == 0 {
        None
    } else if s.last() == '.' {
        Some(s.len() - 1)
    } else {
        last_dot(s.drop_last())
    }
}

/// What follows the last `.` of a leaf name, if it has one.
pub open spec fn extension_of(name: Seq<char>) -> Option<Seq<char>> {
    match last_dot(name) {
        Some(i) => Some(name.subrange(i + 1, name.len() as int)),
        None => None,
    }
}

/// The leaf name of a location; the root has none.
pub open spec fn leaf_of(segs: Seq<Seq<char>>) -> Option<Seq<char>> {
    if segs.len() == 0 {
        None
    } else {
        Some(segs.last())
    }
}

/// The enclosing location; the root has none.
pub open spec fn parent_of(segs: Seq<Seq<char>>) -> Option<Seq<Seq<char>>> {
    if segs.len() == 0 {
        None
    } else {
        Some(segs.drop_last())
    }
}

/// Splits `s` at every `/`, keeping empty pieces.
pub fn split_segments(s: &str) -> (r: Vec<String>)
    ensures
        seg_views(r@) == split_raw(s@),
{
    let n = s.unicode_len();
    let mut out: Vec<String> = Vec::new();
    let mut start: usize = 0;
    let mut i: usize = 0;
    while i < n
        invariant
            n == s@.len(),
            start <= i <= n,
            split_acc(s@.subrange(0, i as int)) == (seg_views(out@), s@.subrange(start as int, i as int)),
        decreases n - i,
    {
        let c = s.get_char(i);
        proof {
            assert(s@.subrange(0, i + 1).drop_last() =~= s@.subrange(0, i as int));
            assert(s@.subrange(0, i + 1).last() == c);
        }
        if c == '/' {
            let piece = s.substring_char(start, i).to_owned();
            let ghost before = out@;
            out.push(piece);
            proof {
                assert(seg_views(out@) =~= seg_views(before).push(piece@));
            }
            start = i + 1;
        } else {
            proof {
                assert(s@.subrange(start as int, i as int).push(c) =~= s@.subrange(start as int, i + 1));
            }
        }
        i = i + 1;
    }
    let last = s.substring_char(start, n).to_owned();
    let ghost before = out@;
    out.push(last);
    proof {
        assert(s@.subrange(0, n as int) =~= s@);
        assert(seg_views(out@) =~= seg_views(before).push(last@));
    }
    out
}

/// The text is exactly `.`.
pub fn is_dot(s: &str) -> (r: bool)
    ensures
        r == (s@ == seq!['.']),
{
    if s.unicode_len() == 1 {
        let c = s.get_char(0);
        if c == '.' {
            assert(s@ =~= seq!['.']);
            true
        } else {
            false
        }
    } else {
        false
    }
}

/// The text is exactly `..`.
pub fn is_dot_dot(s: &str) -> (r: bool)
    ensures
        r == (s@ == seq!['.', '.']),
{
    if s.unicode_len() == 2 {
        let c0 = s.get_char(0);
        let c1 = s.get_char(1);
        if c0 == '.' && c1 == '.' {
            assert(s@ =~= seq!['.', '.']);
            true
        } else {
            false
        }
    } else {
        false
    }
}

/// Applies the raw pieces to `base`; `None` when they climb above the root.
pub fn normalize_onto(base: &Vec<String>, raw: &Vec<String>) -> (r: Option<Vec<String>>)
    ensures
        match r {
            Some(v) => normalize(seg_views(base@), seg_views(raw@)) == Some(seg_views(v@)),
            None => normalize(seg_views(base@), seg_views(raw@)).is_none(),
        },
{
    let mut cur: Vec<String> = base.clone();
    proof {
        assert(seg_views(raw@).subrange(0, 0) =~= Seq::<Seq<char>>::empty());
        assert(cur@ =~= base@);
    }
    let mut j: usize = 0;
    while j < raw.len()
        invariant
            j <= raw.len(),
            normalize(seg_views(base@), seg_views(raw@).subrange(0, j as int)) == Some(seg_views(cur@)),
        decreases raw.len() - j,
    {
        let seg = &raw[j];
        proof {
            assert(seg_views(raw@).subrange(0, j + 1).drop_last() =~= seg_views(raw@).subrange(0, j as int));
            assert(seg_views(raw@).subrange(0, j + 1).last() == seg@);
        }
        let ghost prev = cur@;
        if seg.unicode_len() == 0 || is_dot(seg.as_str()) {
        } else if is_dot_dot(seg.as_str()) {
            if cur.len() == 0 {
                proof {
                    assert(seg_views(raw@).subrange(0, j + 1) =~= seg_views(raw@).subrange(0, j + 1));
                    lemma_normalize_none_extends(seg_views(base@), seg_views(raw@), j as int + 1);
                }
                return None;
            }
            cur.pop();
            proof {
                assert(seg_views(cur@) =~= seg_views(prev).drop_last());
            }
        } else {
            cur.push(seg.clone());
            proof {
                assert(seg_views(cur@) =~= seg_views(prev).push(seg@));
            }
        }
        j = j + 1;
    }
    proof {
        assert(seg_views(raw@).subrange(0, raw.len() as int) =~= seg_views(raw@));
    }
    Some(cur)
}

/// Once the pieces climb above the root, no later piece brings them back.
pub proof fn lemma_normalize_none_extends(base: Seq<Seq<char>>, raw: Seq<Seq<char>>, k: int)
    requires
        0 <= k <= raw.len(),
        normalize(base, raw.subrange(0, k)).is_none(),
    ensures
        normalize(base, raw).is_none(),
    decreases raw.len() - k,
{
    if k < raw.len() {
        assert(raw.subrange(0, k + 1).drop_last() =~= raw.subrange(0, k));
        lemma_normalize_none_extends(base, raw, k + 1);
    } else {
        assert(raw.subrange(0, k) =~= raw);
    }
}

/// The location that the path text `s` denotes relative to `base`.
pub fn resolve_segments(base: &Vec<String>, s: &str) -> (r: Option<Vec<String>>)
    ensures
        match r {
            Some(v) => resolved(seg_views(base@), s@) == Some(seg_views(v@)),
            None => resolved(seg_views(base@), s@).is_none(),
        },
{
    let raw = split_segments(s);
    normalize_onto(base, &raw)
}

/// The location that the path text `s` denotes from the root.
pub fn parse_path(s: &str) -> (r: Option<Vec<String>>)
    ensures
        match r {
            Some(v) => resolved(Seq::empty(), s@) == Some(seg_views(v@)),
            None => resolved(Seq::empty(), s@).is_none(),
        },
{
    let root: Vec<String> = Vec::new();
    proof {
        assert(seg_views(root@) =~= Seq::<Seq<char>>::empty());
    }
    resolve_segments(&root, s)
}

/// The string form of a location.
pub fn render(segs: &Vec<String>) -> (r: String)
    ensures
        r@ == path_text(seg_views(segs@)),
{
    if segs.len() == 0 {
        proof {
            reveal_strlit("/");
        }
        return String::from_str("/");
    }
    let mut out = String::new();
    let mut i: usize = 0;
    proof {
        assert(seg_views(segs@).subrange(0, 0) =~= Seq::<Seq<char>>::empty());
    }
    while i < segs.len()
        invariant
            i <= segs.len(),
            out@ == joined(seg_views(segs@).subrange(0, i as int)),
        decreases segs.len() - i,
    {
        proof {
            reveal_strlit("/");
            assert(seg_views(segs@).subrange(0, i + 1).drop_last() =~= seg_views(segs@).subrange(0, i as int));
        }
        out.append("/");
        out.append(segs[i].as_str());
        i = i + 1;
    }
    proof {
        assert(seg_views(segs@).subrange(0, segs.len() as int) =~= seg_views(segs@));
    }
    out
}

/// What follows the last `.` of `name`, if it holds one.
pub fn extension_of_name(name: &str) -> (r: Option<String>)
    ensures
        match r {
            Some(e) => extension_of(name@) == Some(e@),
            None => extension_of(name@).is_none(),
        },
{
    let n = name.unicode_len();
    let mut k: usize = n;
    proof {
        assert(name@.subrange(0, n as int) =~= name@);
    }
    while k > 0
        invariant
            k <= n,
            n == name@.len(),
            last_dot(name@) == last_dot(name@.subrange(0, k as int)),
        decreases k,
    {
        proof {
            assert(name@.subrange(0, k as int).drop_last() =~= name@.subrange(0, k - 1));
        }
        if name.get_char(k - 1) == '.' {
            return Some(name.substring_char(k, n).to_owned());
        }
        k = k - 1;
    }
    None
}

/// The leaf name of a location.
pub fn leaf_name(segs: &Vec<String>) -> (r: Option<String>)
    ensures
        match r {
            Some(n) => leaf_of(seg_views(segs@)) == Some(n@),
            None => leaf_of(seg_views(segs@)).is_none(),
        },
{
    if segs.len() == 0 {
        None
    } else {
        Some(segs[segs.len() - 1].clone())
    }
}

/// The enclosing location.
pub fn parent_segments(segs: &Vec<String>) -> (r: Option<Vec<String>>)
    ensures
        match r {
            Some(p) => parent_of(seg_views(segs@)) == Some(seg_views(p@)),
            None => parent_of(seg_views(segs@)).is_none(),
        },
{
    if segs.len() == 0 {
        None
    } else {
        let mut p = segs.clone();
        p.pop();
        proof {
            assert(seg_views(p@) =~= seg_views(segs@).drop_last());
        }
        Some(p)
    }
}

/// The last index at which `x` occurs in `s`.
pub open spec fn position_of<A>(s: Seq<A>, x: A) -> Option<int>
    decreases s.len(),
{
    if s.len() == 0 {
        None
    } else if s.last() == x {
        Some(s.len() - 1)
    } else {
        position_of(s.drop_last(), x)
    }
}

pub proof fn lemma_position_of<A>(s: Seq<A>, x: A)
    ensures
        match position_of(s, x) {
            Some(i) => 0 <= i < s.len() && s[i] == x,
            None => !s.contains(x),
        },
    decreases s.len(),
{
    if s.len() > 0 {
        lemma_position_of(s.drop_last(), x);
        if s.last() != x {
            assert forall|j: int| 0 <= j < s.len() - 1 implies s[j] == s.drop_last()[j] by {}
        }
    }
}

/// The location without its first segment.
pub fn tail_segments(segs: &Vec<String>) -> (r: Vec<String>)
    requires
        segs.len() > 0,
    ensures
        seg_views(r@) == seg_views(segs@).drop_first(),
{
    let mut out: Vec<String> = Vec::new();
    let mut i: usize = 1;
    proof {
        assert(seg_views(out@) =~= seg_views(segs@).subrange(1, 1));
    }
    while i < segs.len()
        invariant
            1 <= i <= segs.len(),
            seg_views(out@) == seg_views(segs@).subrange(1, i as int),
        decreases segs.len() - i,
    {
        let ghost before = out@;
        out.push(segs[i].clone());
        proof {
            assert(seg_views(out@) =~= seg_views(before).push(segs@[i as int]@));
            assert(seg_views(out@) =~= seg_views(segs@).subrange(1, i + 1));
        }
        i = i + 1;
    }
    proof {
        assert(seg_views(segs@).subrange(1, segs.len() as int) =~= seg_views(segs@).drop_first());
    }
    out
}

/// The location one level down, at `name`.
pub fn child_segments(segs: &Vec<String>, name: &String) -> (r: Vec<String>)
    ensures
        seg_views(r@) == seg_views(segs@).push(name@),
{
    let mut out = segs.clone();
    let ghost before = out@;
    out.push(name.clone());
    proof {
        assert(before =~= segs@);
        assert(seg_views(out@) =~= seg_views(segs@).push(name@));
    }
    out
}

/// Does `v` hold a string equal to `n`?
pub fn contains_name(v: &Vec<String>, n: &String) -> (r: bool)
    ensures
        r == seg_views(v@).contains(n@),
{
    let mut i: usize = 0;
    while i < v.len()
        invariant
            i <= v.len(),
            forall|j: int| 0 <= j < i ==> v@[j]@ != n@,
        decreases v.len() - i,
    {
        if v[i] == *n {
            assert(seg_views(v@)[i as int] == n@);
            return true;
        }
        i = i + 1;
    }
    proof {
        assert forall|j: int| 0 <= j < seg_views(v@).len() implies seg_views(v@)[j] != n@ by {
            assert(seg_views(v@)[j] == v@[j]@);
        }
    }
    false
}

/// The location `b` taken below `a`.
pub fn append_segments(a: &Vec<String>, b: &Vec<String>) -> (r: Vec<String>)
    ensures
        seg_views(r@) == seg_views(a@) + seg_views(b@),
{
    let mut out = a.clone();
    proof {
        assert(out@ =~= a@);
        assert(seg_views(b@).subrange(0, 0) =~= Seq::<Seq<char>>::empty());
        assert(seg_views(out@) =~= seg_views(a@) + seg_views(b@).subrange(0, 0));
    }
    let mut i: usize = 0;
    while i < b.len()
        invariant
            i <= b.len(),
            seg_views(out@) == seg_views(a@) + seg_views(b@).subrange(0, i as int),
        decreases b.len() - i,
    {
        let ghost before = out@;
        out.push(b[i].clone());
        proof {
            assert(seg_views(out@) =~= seg_views(before).push(b@[i as int]@));
            assert(seg_views(out@) =~= seg_views(a@) + seg_views(b@).subrange(0, i + 1));
        }
        i = i + 1;
    }
    proof {
        assert(seg_views(b@).subrange(0, b.len() as int) =~= seg_views(b@));
    }
    out
}

} // verus!
verus! {

/// Splitting text that follows a completed piece continues from it.
pub proof fn lemma_split_acc_append(t: Seq<char>, s: Seq<char>)
    requires
        split_acc(t).1.len() == 0,
    ensures
        split_acc(t + s) == (split_acc(t).0 + split_acc(s).0, split_acc(s).1),
    decreases s.len(),
{
    if s.len() == 0 {
        assert(t + s =~= t);
        assert(split_acc(t).0 + Seq::<Seq<char>>::empty() =~= split_acc(t).0);
    } else {
        assert((t + s).drop_last() =~= t + s.drop_last());
        assert((t + s).last() == s.last());
        lemma_split_acc_append(t, s.drop_last());
        let d = split_acc(t).0;
        let a = split_acc(s.drop_last());
        if s.last() == '/' {
            assert((d + a.0).push(a.1) =~= d + a.0.push(a.1));
        }
    }
}

/// A leading `/` followed by a name without `/` leaves that name in progress.
pub proof fn lemma_split_acc_name(name: Seq<char>)
    requires
        !name.contains('/'),
    ensures
        split_acc(seq!['/'] + name) == (seq![Seq::<char>::empty()], name),
    decreases name.len(),
{
    if name.len() == 0 {
        assert(seq!['/'] + name =~= seq!['/']);
        assert(seq!['/'].drop_last() =~= Seq::<char>::empty());
        assert(split_acc(Seq::<char>::empty()) == (Seq::<Seq<char>>::empty(), Seq::<char>::empty()));
        assert(seq!['/'].last() == '/');
        assert(Seq::<Seq<char>>::empty().push(Seq::<char>::empty()) =~= seq![Seq::<char>::empty()]);
    } else {
        assert((seq!['/'] + name).drop_last() =~= seq!['/'] + name.drop_last());
        assert((seq!['/'] + name).last() == name.last());
        assert(name.drop_last().contains('/') ==> name.contains('/')) by {
            if name.drop_last().contains('/') {
                let i = choose|i: int| 0 <= i < name.drop_last().len() && name.drop_last()[i] == '/';
                assert(name[i] == '/');
            }
        }
        lemma_split_acc_name(name.drop_last());
        assert(name[name.len() - 1] != '/');
        assert(name.drop_last().push(name.last()) =~= name);
    }
}

/// Normalizing raw pieces one after the other.
pub proof fn lemma_normalize_concat(base: Seq<Seq<char>>, a: Seq<Seq<char>>, b: Seq<Seq<char>>)
    requires
        normalize(base, a) is Some,
    ensures
        normalize(base, a + b) == normalize(normalize(base, a)->Some_0, b),
    decreases b.len(),
{
    if b.len() == 0 {
        assert(a + b =~= a);
    } else {
        assert((a + b).drop_last() =~= a + b.drop_last());
        lemma_normalize_concat(base, a, b.drop_last());
    }
}

/// Normalizing below a longer base only prefixes the result, where it does not climb out.
pub proof fn lemma_normalize_prefix(p: Seq<Seq<char>>, base: Seq<Seq<char>>, raw: Seq<Seq<char>>)
    requires
        normalize(base, raw) is Some,
    ensures
        normalize(p + base, raw) == Some(p + normalize(base, raw)->Some_0),
    decreases raw.len(),
{
    if raw.len() == 0 {
    } else {
        lemma_normalize_prefix(p, base, raw.drop_last());
        let b = normalize(base, raw.drop_last())->Some_0;
        let seg = raw.last();
        if seg == seq!['.', '.'] && seg.len() != 0 && seg != seq!['.'] {
            assert((p + b).drop_last() =~= p + b.drop_last());
        } else if !(seg.len() == 0 || seg == seq!['.']) {
            assert((p + b).push(seg) =~= p + b.push(seg));
        }
    }
}

/// The text `/<name>/x` denotes `<name>` followed by what `x` denotes, where
/// `x` stays below its root and `<name>` is a usable segment.
pub proof fn lemma_resolve_under_name(name: Seq<char>, x: Seq<char>)
    requires
        valid_segment(name),
        resolved(Seq::empty(), x) is Some,
    ensures
        resolved(Seq::empty(), seq!['/'] + name + seq!['/'] + x) == Some(seq![name] + resolved(Seq::empty(), x)->Some_0),
{
    let head = seq!['/'] + name + seq!['/'];
    lemma_split_acc_name(name);
    assert(head.drop_last() =~= seq!['/'] + name);
    assert(head.last() == '/');
    assert(split_acc(head) == (seq![Seq::<char>::empty(), name], Seq::<char>::empty())) by {
        assert(seq![Seq::<char>::empty()].push(name) =~= seq![Seq::<char>::empty(), name]);
    }
    lemma_split_acc_append(head, x);
    let pieces = seq![Seq::<char>::empty(), name];
    assert(split_raw(head + x) =~= pieces + split_raw(x));
    assert(pieces.drop_last() =~= seq![Seq::<char>::empty()]);
    assert(seq![Seq::<char>::empty()].drop_last() =~= Seq::<Seq<char>>::empty());
    assert(seq![Seq::<char>::empty()].last() == Seq::<char>::empty());
    assert(normalize(Seq::empty(), Seq::<Seq<char>>::empty()) == Some(Seq::<Seq<char>>::empty()));
    assert(normalize(Seq::empty(), seq![Seq::<char>::empty()]) == Some(Seq::<Seq<char>>::empty()));
    assert(Seq::<Seq<char>>::empty().push(name) =~= seq![name]);
    assert(normalize(Seq::empty(), pieces) == Some(seq![name]));
    lemma_normalize_concat(Seq::empty(), pieces, split_raw(x));
    lemma_normalize_prefix(seq![name], Seq::empty(), split_raw(x));
    assert(seq![name] + Seq::<Seq<char>>::empty() =~= seq![name]);
}

} // verus!
