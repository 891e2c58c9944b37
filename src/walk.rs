use vstd::prelude::*;

use std::sync::Arc;

use crate::boxed::{BoxedFs, BoxedPath};
use crate::copy::{below, is_file_at};
use crate::error::{Error, ErrorKind};
use crate::glob::{any_accepts, globber_builds, Globber};
use crate::laws::lemma_listing_distinct;
use crate::memory::{is_prefix, loc_views};
use crate::path::{child_segments, path_text, render, seg_views};
use crate::types::{FileType, Metadata};

verus! {

/// What one step of a walk did.
pub enum WalkStep {
    /// A file that passes the filter.
    Yield(BoxedPath),
    /// A directory could not be listed, or an entry's metadata could not be had.
    Failed(Error),
    /// An entry that is not reported (a directory, which is queued, or a file
    /// the filter rejects), or a directory that was opened.
    Skip,
    /// Nothing is left to visit.
    Done,
}

/// A depth-first walk: a frontier of directories still to expand, and the
/// directory being enumerated with the index of its next entry. Directories
/// go onto the frontier; files that pass the filter are yielded, in the
/// order their directory lists them.
pub struct WalkDirIter {
    fs: Arc<BoxedFs>,
    todo: Vec<Vec<String>>,
    dir: Vec<String>,
    names: Vec<String>,
    next: usize,
    filter: Option<Globber>,
}

impl WalkDirIter {
    pub closed spec fn backend(&self) -> BoxedFs {
        *self.fs
    }

    /// The directories still to expand; the last is expanded next.
    pub closed spec fn pending(&self) -> Seq<Seq<Seq<char>>> {
        loc_views(self.todo@)
    }

    /// The directory being enumerated.
    pub closed spec fn dir(&self) -> Seq<Seq<char>> {
        seg_views(self.dir@)
    }

    /// Its entries' names.
    pub closed spec fn names(&self) -> Seq<Seq<char>> {
        seg_views(self.names@)
    }

    /// The index of the next entry to look at.
    pub closed spec fn next_index(&self) -> int {
        self.next as int
    }

    pub closed spec fn wf(&self) -> bool {
        &&& self.backend().wf()
        &&& self.next <= self.names@.len()
    }

    /// Whether the filter lets a file with string form `text` through.
    pub closed spec fn accepts(&self, text: Seq<char>) -> bool {
        match self.filter {
            Some(g) => any_accepts(g.patterns(), text),
            None => true,
        }
    }

    /// A walk of every file below the directory `path`.
    pub fn new(path: &BoxedPath) -> (r: WalkDirIter)
        requires
            path.backend().wf(),
        ensures
            r.wf(),
            r.backend() == path.backend(),
            r.pending() == seq![path.location()],
            r.next_index() == r.names().len(),
            forall|t: Seq<char>| r.accepts(t),
    {
        let mut todo: Vec<Vec<String>> = Vec::new();
        todo.push(path.segments().clone());
        let r = WalkDirIter { fs: path.handle().clone(), todo, dir: Vec::new(), names: Vec::new(), next: 0, filter: None };
        proof {
            assert(r.pending() =~= seq![path.location()]);
        }
        r
    }

    /// A walk below the directory `path` that yields only the files whose
    /// string form `filter` matches; every directory is still expanded.
    pub fn from(path: &BoxedPath, filter: Globber) -> (r: WalkDirIter)
        requires
            path.backend().wf(),
        ensures
            r.wf(),
            r.backend() == path.backend(),
            r.pending() == seq![path.location()],
            r.next_index() == r.names().len(),
            forall|t: Seq<char>| r.accepts(t) == any_accepts(filter.patterns(), t),
    {
        let mut todo: Vec<Vec<String>> = Vec::new();
        todo.push(path.segments().clone());
        let r = WalkDirIter { fs: path.handle().clone(), todo, dir: Vec::new(), names: Vec::new(), next: 0, filter: Some(filter) };
        proof {
            assert(r.pending() =~= seq![path.location()]);
        }
        r
    }

    /// Nothing is left to visit.
    pub fn is_done(&self) -> (r: bool)
        requires
            self.wf(),
        ensures
            r == (self.pending().len() == 0 && self.next_index() == self.names().len()),
    {
        self.todo.len() == 0 && self.next >= self.names.len()
    }

    /// Looks at the next entry of the directory being enumerated; once its
    /// entries are used up, takes the next directory off the frontier and
    /// lists it.
    pub fn step(&mut self) -> (r: WalkStep)
        requires
            old(self).wf(),
        ensures
            final(self).wf(),
            final(self).backend() == old(self).backend(),
            forall|t: Seq<char>| final(self).accepts(t) == old(self).accepts(t),
            walk_step(*old(self), *final(self), r),
    {
        if self.next < self.names.len() {
            let c = child_segments(&self.dir, &self.names[self.next]);
            self.next = self.next + 1;
            let m = match self.fs.metadata_at(&c) {
                Ok(m) => m,
                Err(e) => {
                    return WalkStep::Failed(e);
                },
            };
            if m.is_dir() {
                let ghost before = self.todo@;
                self.todo.push(c);
                proof {
                    assert(self.pending() =~= loc_views(before).push(seg_views(self.dir@).push(seg_views(self.names@)[self.next - 1])));
                }
                return WalkStep::Skip;
            }
            let passes = match &self.filter {
                Some(g) => {
                    let text = render(&c);
                    g.is_match(text.as_str())
                },
                None => true,
            };
            if passes {
                return WalkStep::Yield(BoxedPath::from_parts(self.fs.clone(), c));
            }
            return WalkStep::Skip;
        }
        let ghost before = self.todo@;
        let d = match self.todo.pop() {
            Some(d) => d,
            None => {
                return WalkStep::Done;
            },
        };
        proof {
            assert(self.pending() =~= loc_views(before).drop_last());
        }
        match self.fs.list_at(&d) {
            Ok(names) => {
                self.dir = d;
                self.names = names;
                self.next = 0;
                WalkStep::Skip
            },
            Err(e) => {
                self.names = Vec::new();
                self.next = 0;
                WalkStep::Failed(e)
            },
        }
    }
}

/// What one step of a walk does: the walk `o` becomes `f` and reports `r`.
pub open spec fn walk_step(o: WalkDirIter, f: WalkDirIter, r: WalkStep) -> bool {
    if o.next_index() < o.names().len() {
        let c = o.dir().push(o.names()[o.next_index()]);
        &&& f.dir() == o.dir() && f.names() == o.names() && f.next_index() == o.next_index() + 1
        &&& match o.backend().entry(c) {
            None => (r matches WalkStep::Failed(e) && e.kind == ErrorKind::NotFound) && f.pending() == o.pending(),
            Some(n) => if n.0 == FileType::Dir {
                r is Skip && f.pending() == o.pending().push(c)
            } else if o.accepts(path_text(c)) {
                (r matches WalkStep::Yield(p) && p.backend() == o.backend() && p.location() == c)
                    && f.pending() == o.pending()
            } else {
                r is Skip && f.pending() == o.pending()
            },
        }
    } else if o.pending().len() == 0 {
        r is Done && f.pending() == o.pending() && f.next_index() == f.names().len()
    } else {
        let d = o.pending().last();
        &&& f.pending() == o.pending().drop_last()
        &&& match o.backend().listing(d) {
            Ok(names) => r is Skip && f.dir() == d && f.names() == names && f.next_index() == 0,
            Err(k) => (r matches WalkStep::Failed(e) && e.kind == k) && f.next_index() == f.names().len(),
        }
    }
}

/// A walk that yields the files whose string form matches a glob.
pub struct GlobWalkDirIter {
    inner: WalkDirIter,
}

impl GlobWalkDirIter {
    pub closed spec fn walk(&self) -> WalkDirIter {
        self.inner
    }

    /// Walks below `path` with one pattern.
    pub fn new(path: &BoxedPath, pattern: &str) -> (r: Result<GlobWalkDirIter, Error>)
        requires
            path.backend().wf(),
        ensures
            r is Ok ==> r->Ok_0.walk().wf() && r->Ok_0.walk().backend() == path.backend()
                && r->Ok_0.walk().pending() == seq![path.location()]
                && r->Ok_0.walk().next_index() == r->Ok_0.walk().names().len()
                && forall|t: Seq<char>| r->Ok_0.walk().accepts(t) == crate::glob::glob_accepts(pattern@, t),
            r is Ok <==> globber_builds(seq![pattern@]),
    {
        match Globber::new(pattern) {
            Ok(g) => {
                let inner = WalkDirIter::from(path, g);
                proof {
                    assert forall|t: Seq<char>| inner.accepts(t) == crate::glob::glob_accepts(pattern@, t) by {
                        if crate::glob::glob_accepts(pattern@, t) {
                            assert(seq![pattern@][0] == pattern@);
                        }
                    }
                }
                Ok(GlobWalkDirIter { inner })
            },
            Err(e) => Err(e),
        }
    }

    /// Walks below `path` with several patterns; a file is yielded when any matches.
    pub fn new_set(path: &BoxedPath, patterns: &Vec<String>) -> (r: Result<GlobWalkDirIter, Error>)
        requires
            path.backend().wf(),
        ensures
            r is Ok ==> r->Ok_0.walk().wf() && r->Ok_0.walk().backend() == path.backend()
                && r->Ok_0.walk().pending() == seq![path.location()]
                && r->Ok_0.walk().next_index() == r->Ok_0.walk().names().len()
                && forall|t: Seq<char>| r->Ok_0.walk().accepts(t) == any_accepts(seg_views(patterns@), t),
            r is Ok <==> globber_builds(seg_views(patterns@)),
    {
        match Globber::new_set(patterns) {
            Ok(g) => Ok(GlobWalkDirIter { inner: WalkDirIter::from(path, g) }),
            Err(e) => Err(e),
        }
    }

    /// One step of the walk (see `WalkDirIter::step`).
    pub fn step(&mut self) -> (r: WalkStep)
        requires
            old(self).walk().wf(),
        ensures
            final(self).walk().wf(),
            final(self).walk().backend() == old(self).walk().backend(),
            forall|t: Seq<char>| final(self).walk().accepts(t) == old(self).walk().accepts(t),
            walk_step(old(self).walk(), final(self).walk(), r),
    {
        self.inner.step()
    }
}

/// Where an incremental walk stands between two pieces of outside work.
pub enum WalkState {
    /// Ready to take the next directory off the frontier.
    Idle,
    /// Waiting for the listing of this directory.
    OpeningDirectory(Vec<String>),
    /// Handing out the entries of `dir`; `names[next..]` are still to come.
    Enumerating { dir: Vec<String>, names: Vec<String>, next: usize },
    /// Waiting for the metadata of the entry `names[next]` of `dir`.
    FetchingMetadata { dir: Vec<String>, names: Vec<String>, next: usize },
    /// The frontier ran empty.
    Finished,
}

/// What the outside work brought back.
pub enum WalkEvent {
    /// No result: carry on.
    Resume,
    /// The listing asked for, or the kind of error that prevented it.
    Listed(Result<Vec<String>, ErrorKind>),
    /// The metadata asked for, or the kind of error that prevented it.
    Fetched(Result<Metadata, ErrorKind>),
}

/// What the walk asks of its driver next.
pub enum WalkAction {
    /// List this directory and report `Listed`.
    OpenDirectory(Vec<String>),
    /// Fetch the metadata of this location and report `Fetched`.
    FetchMetadata(Vec<String>),
    /// Hand this file to the consumer, then report `Resume`.
    Yield(Vec<String>),
    /// Report this failure to the consumer, then report `Resume`.
    Fail(ErrorKind),
    /// Report `Resume`.
    Continue,
    /// The walk is over.
    Finish,
}

/// The asynchronous form of the walk: a state machine that never blocks.
/// Each call of `advance` takes the result of the last piece of outside work
/// and names the next one; the frontier holds directories not yet expanded.
pub struct WalkMachine {
    frontier: Vec<Vec<String>>,
    state: WalkState,
    filter: Option<Globber>,
}

impl WalkMachine {
    pub closed spec fn frontier(&self) -> Seq<Seq<Seq<char>>> {
        loc_views(self.frontier@)
    }

    pub closed spec fn state(&self) -> WalkState {
        self.state
    }

    pub closed spec fn wf(&self) -> bool {
        &&& match self.state {
            WalkState::Enumerating { dir: _, names, next } => next <= names.len(),
            WalkState::FetchingMetadata { dir: _, names, next } => next < names.len(),
            _ => true,
        }
    }

    /// Whether the filter lets a file with string form `text` through.
    pub closed spec fn accepts(&self, text: Seq<char>) -> bool {
        match self.filter {
            Some(g) => any_accepts(g.patterns(), text),
            None => true,
        }
    }

    /// A walk of the directory `root`, optionally filtered.
    pub fn new(root: &Vec<String>, filter: Option<Globber>) -> (r: WalkMachine)
        ensures
            r.wf(),
            r.frontier() == seq![seg_views(root@)],
            r.state() is Idle,
            forall|t: Seq<char>| r.accepts(t) == match filter {
                Some(g) => any_accepts(g.patterns(), t),
                None => true,
            },
    {
        let mut frontier: Vec<Vec<String>> = Vec::new();
        frontier.push(root.clone());
        let r = WalkMachine { frontier, state: WalkState::Idle, filter };
        proof {
            assert(r.frontier() =~= seq![seg_views(root@)]);
        }
        r
    }

    /// Takes the outcome of the last piece of outside work and decides the next one.
    pub fn advance(&mut self, event: WalkEvent) -> (r: WalkAction)
        requires
            old(self).wf(),
        ensures
            final(self).wf(),
            forall|t: Seq<char>| final(self).accepts(t) == old(self).accepts(t),
            match (old(self).state(), event) {
                (WalkState::Idle, _) => if old(self).frontier().len() == 0 {
                    &&& r is Finish
                    &&& final(self).state() is Finished
                    &&& final(self).frontier() == old(self).frontier()
                } else {
                    &&& (r matches WalkAction::OpenDirectory(d) && seg_views(d@) == old(self).frontier().last())
                    &&& final(self).frontier() == old(self).frontier().drop_last()
                    &&& (final(self).state() matches WalkState::OpeningDirectory(d2) && seg_views(d2@) == old(self).frontier().last())
                },
                (WalkState::OpeningDirectory(d), WalkEvent::Listed(Ok(names))) => {
                    &&& r is Continue
                    &&& final(self).frontier() == old(self).frontier()
                    &&& (final(self).state() matches WalkState::Enumerating { dir, names: n2, next }
                        && seg_views(dir@) == seg_views(d@) && seg_views(n2@) == seg_views(names@) && next == 0)
                },
                (WalkState::OpeningDirectory(_), WalkEvent::Listed(Err(k))) => {
                    &&& r == WalkAction::Fail(k)
                    &&& final(self).frontier() == old(self).frontier()
                    &&& final(self).state() is Idle
                },
                (WalkState::Enumerating { dir, names, next }, _) => if next < names.len() {
                    &&& (r matches WalkAction::FetchMetadata(c) && seg_views(c@) == seg_views(dir@).push(names@[next as int]@))
                    &&& final(self).frontier() == old(self).frontier()
                    &&& (final(self).state() matches WalkState::FetchingMetadata { dir: d2, names: n2, next: x2 }
                        && seg_views(d2@) == seg_views(dir@) && seg_views(n2@) == seg_views(names@) && x2 == next)
                } else {
                    &&& r is Continue
                    &&& final(self).frontier() == old(self).frontier()
                    &&& final(self).state() is Idle
                },
                (WalkState::FetchingMetadata { dir, names, next }, WalkEvent::Fetched(m)) => {
                    let c = seg_views(dir@).push(names@[next as int]@);
                    &&& (final(self).state() matches WalkState::Enumerating { dir: d2, names: n2, next: x2 }
                        && seg_views(d2@) == seg_views(dir@) && seg_views(n2@) == seg_views(names@) && x2 == next + 1)
                    &&& match m {
                        Ok(md) => if md.kind == FileType::Dir {
                            r is Continue && final(self).frontier() == old(self).frontier().push(c)
                        } else if old(self).accepts(path_text(c)) {
                            (r matches WalkAction::Yield(y) && seg_views(y@) == c) && final(self).frontier() == old(self).frontier()
                        } else {
                            r is Continue && final(self).frontier() == old(self).frontier()
                        },
                        Err(k) => r == WalkAction::Fail(k) && final(self).frontier() == old(self).frontier(),
                    }
                },
                (WalkState::Finished, _) => {
                    &&& r is Finish
                    &&& final(self).state() is Finished
                    &&& final(self).frontier() == old(self).frontier()
                },
                _ => {
                    &&& r is Continue
                    &&& final(self).state() == old(self).state()
                    &&& final(self).frontier() == old(self).frontier()
                },
            },
    {
        let mut state = WalkState::Idle;
        std::mem::swap(&mut self.state, &mut state);
        match state {
            WalkState::Idle => {
                let ghost before = self.frontier@;
                match self.frontier.pop() {
                    Some(d) => {
                        proof {
                            assert(self.frontier() =~= loc_views(before).drop_last());
                        }
                        self.state = WalkState::OpeningDirectory(d.clone());
                        WalkAction::OpenDirectory(d)
                    },
                    None => {
                        self.state = WalkState::Finished;
                        WalkAction::Finish
                    },
                }
            },
            WalkState::OpeningDirectory(d) => match event {
                WalkEvent::Listed(Ok(names)) => {
                    self.state = WalkState::Enumerating { dir: d, names, next: 0 };
                    WalkAction::Continue
                },
                WalkEvent::Listed(Err(k)) => WalkAction::Fail(k),
                _ => {
                    self.state = WalkState::OpeningDirectory(d);
                    WalkAction::Continue
                },
            },
            WalkState::Enumerating { dir, names, next } => {
                if next < names.len() {
                    let c = child_segments(&dir, &names[next]);
                    self.state = WalkState::FetchingMetadata { dir, names, next };
                    WalkAction::FetchMetadata(c)
                } else {
                    WalkAction::Continue
                }
            },
            WalkState::FetchingMetadata { dir, names, next } => match event {
                WalkEvent::Fetched(m) => {
                    let c = child_segments(&dir, &names[next]);
                    let action = match m {
                        Ok(md) => {
                            if md.is_dir() {
                                let ghost before = self.frontier@;
                                self.frontier.push(c);
                                proof {
                                    assert(self.frontier() =~= loc_views(before).push(seg_views(dir@).push(names@[next as int]@)));
                                }
                                WalkAction::Continue
                            } else {
                                let passes = match &self.filter {
                                    Some(g) => {
                                        let text = render(&c);
                                        g.is_match(text.as_str())
                                    },
                                    None => true,
                                };
                                if passes {
                                    WalkAction::Yield(c)
                                } else {
                                    WalkAction::Continue
                                }
                            }
                        },
                        Err(k) => WalkAction::Fail(k),
                    };
                    self.state = WalkState::Enumerating { dir, names, next: next + 1 };
                    action
                },
                _ => {
                    self.state = WalkState::FetchingMetadata { dir, names, next };
                    WalkAction::Continue
                },
            },
            WalkState::Finished => {
                self.state = WalkState::Finished;
                WalkAction::Finish
            },
        }
    }
}


/// A file the walk `w` still owes: a file that the filter lets through and
/// that lies strictly below a pending directory, or below an entry of the
/// directory being enumerated that has not been looked at yet.
pub open spec fn owed(w: WalkDirIter, x: Seq<Seq<char>>) -> bool {
    &&& is_file_at(w.backend(), x)
    &&& w.accepts(path_text(x))
    &&& (exists|p: int| 0 <= p < w.pending().len() && x != w.pending()[p] && below(w.backend(), #[trigger] w.pending()[p], x))
        || (exists|k: int| w.next_index() <= k < w.names().len() && below(w.backend(), #[trigger] w.dir().push(w.names()[k]), x))
}

/// A walk loses no file: a file owed before a step is yielded by that step
/// or still owed after it, unless the step reports a failure.
pub proof fn lemma_walk_loses_nothing(o: WalkDirIter, f: WalkDirIter, r: WalkStep, x: Seq<Seq<char>>)
    requires
        o.wf(),
        walk_step(o, f, r),
        f.backend() == o.backend(),
        forall|t: Seq<char>| f.accepts(t) == o.accepts(t),
        owed(o, x),
    ensures
        (r matches WalkStep::Yield(p) && p.location() == x) || r is Failed || owed(f, x),
{
    let fs = o.backend();
    if o.next_index() < o.names().len() {
        let c = o.dir().push(o.names()[o.next_index()]);
        if exists|p: int| 0 <= p < o.pending().len() && x != o.pending()[p] && below(fs, #[trigger] o.pending()[p], x) {
            let p = choose|p: int| 0 <= p < o.pending().len() && x != o.pending()[p] && below(fs, #[trigger] o.pending()[p], x);
            if f.pending() == o.pending().push(c) {
                assert(f.pending()[p] == o.pending()[p]);
            }
            if r is Skip || r is Yield {
                assert(0 <= p < f.pending().len() && x != f.pending()[p] && below(fs, f.pending()[p], x));
            }
        } else {
            let k = choose|k: int| o.next_index() <= k < o.names().len() && below(fs, #[trigger] o.dir().push(o.names()[k]), x);
            if k > o.next_index() {
                assert(f.dir().push(f.names()[k]) == o.dir().push(o.names()[k]));
            } else {
                assert(o.dir().push(o.names()[k]) == c);
                if x.len() == c.len() {
                    assert(x =~= x.subrange(0, c.len() as int));
                } else {
                    assert(fs.entry(c) is Some && fs.entry(c)->Some_0.0 == FileType::Dir);
                    let q = o.pending().len() as int;
                    assert(f.pending()[q] == c);
                    assert(x != c);
                }
            }
        }
    } else if o.pending().len() > 0 {
        let d = o.pending().last();
        let p = choose|p: int| 0 <= p < o.pending().len() && x != o.pending()[p] && below(fs, #[trigger] o.pending()[p], x);
        if p < o.pending().len() - 1 {
            assert(f.pending()[p] == o.pending()[p]);
        } else {
            assert(o.pending()[p] == d);
            if x.len() == d.len() {
                assert(x =~= x.subrange(0, d.len() as int));
            }
            let names = fs.listing(d)->Ok_0;
            let n = x[d.len() as int];
            let k = choose|k: int| 0 <= k < names.len() && names[k] == n;
            assert(f.dir().push(f.names()[k]) == d.push(n));
        }
    }
}

/// Every location the walk `w` has yet to look at: the pending directories,
/// then the entries of the current directory not looked at yet.
pub open spec fn items(w: WalkDirIter) -> Seq<Seq<Seq<char>>> {
    w.pending() + Seq::new((w.names().len() - w.next_index()) as nat, |k: int| w.dir().push(w.names()[w.next_index() + k]))
}

/// No location of `ps` lies at or above another one.
pub open spec fn independent(ps: Seq<Seq<Seq<char>>>) -> bool {
    forall|i: int, j: int| 0 <= i < ps.len() && 0 <= j < ps.len() && i != j ==> !is_prefix(#[trigger] ps[i], #[trigger] ps[j])
}

/// No location of `ps` lies at or above a location of `visited`.
pub open spec fn apart(visited: Seq<Seq<Seq<char>>>, ps: Seq<Seq<Seq<char>>>) -> bool {
    forall|v: int, p: int| 0 <= v < visited.len() && 0 <= p < ps.len() ==> !is_prefix(#[trigger] ps[p], #[trigger] visited[v])
}

proof fn lemma_remove_keeps(visited: Seq<Seq<Seq<char>>>, ps: Seq<Seq<Seq<char>>>, i: int)
    requires
        0 <= i < ps.len(),
        independent(ps),
        apart(visited, ps),
    ensures
        !visited.contains(ps[i]),
        independent(ps.remove(i)),
        apart(visited, ps.remove(i)),
        apart(visited.push(ps[i]), ps.remove(i)),
{
    let q = ps.remove(i);
    if visited.contains(ps[i]) {
        let v = choose|v: int| 0 <= v < visited.len() && visited[v] == ps[i];
        assert(ps[i].subrange(0, ps[i].len() as int) =~= ps[i]);
        assert(is_prefix(ps[i], visited[v]));
    }
    assert forall|a: int, b: int| 0 <= a < q.len() && 0 <= b < q.len() && a != b implies !is_prefix(#[trigger] q[a], #[trigger] q[b]) by {
        let a2 = if a < i { a } else { a + 1 };
        let b2 = if b < i { b } else { b + 1 };
        assert(q[a] == ps[a2] && q[b] == ps[b2]);
    }
    assert forall|v: int, p: int| 0 <= v < visited.push(ps[i]).len() && 0 <= p < q.len() implies !is_prefix(#[trigger] q[p], #[trigger] visited.push(ps[i])[v]) by {
        let p2 = if p < i { p } else { p + 1 };
        assert(q[p] == ps[p2]);
        if v < visited.len() {
            assert(visited.push(ps[i])[v] == visited[v]);
        } else {
            assert(visited.push(ps[i])[v] == ps[i]);
        }
    }
    assert forall|v: int, p: int| 0 <= v < visited.len() && 0 <= p < q.len() implies !is_prefix(#[trigger] q[p], #[trigger] visited[v]) by {
        let p2 = if p < i { p } else { p + 1 };
        assert(q[p] == ps[p2]);
    }
}

proof fn lemma_prefix_of_child(d: Seq<Seq<char>>, n: Seq<char>, x: Seq<Seq<char>>)
    requires
        is_prefix(d.push(n), x),
    ensures
        is_prefix(d, x),
{
    assert(x.subrange(0, d.len() as int) =~= d.push(n).subrange(0, d.len() as int));
    assert(d.push(n).subrange(0, d.len() as int) =~= d);
}

proof fn lemma_expand_keeps(visited: Seq<Seq<Seq<char>>>, ps: Seq<Seq<Seq<char>>>, names: Seq<Seq<char>>)
    requires
        ps.len() > 0,
        independent(ps),
        apart(visited, ps),
        names.no_duplicates(),
    ensures
        ({
            let d = ps.last();
            let next = ps.drop_last() + Seq::new(names.len(), |k: int| d.push(names[k]));
            independent(next) && apart(visited, next)
        }),
{
    let d = ps.last();
    let rest = ps.drop_last();
    let kids = Seq::new(names.len(), |k: int| d.push(names[k]));
    let next = rest + kids;
    let last = ps.len() - 1;
    assert forall|i: int, j: int| 0 <= i < next.len() && 0 <= j < next.len() && i != j implies !is_prefix(#[trigger] next[i], #[trigger] next[j]) by {
        if i < rest.len() && j < rest.len() {
            assert(next[i] == ps[i] && next[j] == ps[j]);
        } else if i < rest.len() {
            let n = names[j - rest.len()];
            assert(next[j] == d.push(n));
            assert(next[i] == ps[i]);
            if is_prefix(next[i], next[j]) {
                if ps[i].len() <= d.len() {
                    assert(d.subrange(0, ps[i].len() as int) =~= d.push(n).subrange(0, ps[i].len() as int));
                    assert(is_prefix(ps[i], ps[last]));
                } else {
                    assert(ps[i] =~= d.push(n));
                    lemma_prefix_of_child(d, n, ps[i]);
                    assert(is_prefix(ps[last], ps[i]));
                }
            }
        } else if j < rest.len() {
            let n = names[i - rest.len()];
            assert(next[i] == d.push(n));
            assert(next[j] == ps[j]);
            if is_prefix(next[i], next[j]) {
                lemma_prefix_of_child(d, n, ps[j]);
                assert(is_prefix(ps[last], ps[j]));
            }
        } else {
            let a = i - rest.len();
            let b = j - rest.len();
            assert(next[i] == d.push(names[a]) && next[j] == d.push(names[b]));
            if is_prefix(next[i], next[j]) {
                assert(next[j].subrange(0, next[i].len() as int) =~= next[j]);
                assert(next[j][d.len() as int] == names[b]);
                assert(next[i][d.len() as int] == names[a]);
            }
        }
    }
    assert forall|v: int, p: int| 0 <= v < visited.len() && 0 <= p < next.len() implies !is_prefix(#[trigger] next[p], #[trigger] visited[v]) by {
        if p < rest.len() {
            assert(next[p] == ps[p]);
        } else {
            let n = names[p - rest.len()];
            assert(next[p] == d.push(n));
            if is_prefix(next[p], visited[v]) {
                lemma_prefix_of_child(d, n, visited[v]);
                assert(is_prefix(ps[last], visited[v]));
            }
        }
    }
}

/// A walk yields no location twice: where none of the locations it has yet
/// to look at lies at or above another, or at or above a location already
/// yielded, a step yields a location not yielded before, and both properties
/// hold again afterwards, with the yielded location added.
pub proof fn lemma_walk_visits_once(o: WalkDirIter, f: WalkDirIter, r: WalkStep, visited: Seq<Seq<Seq<char>>>)
    requires
        o.wf(),
        walk_step(o, f, r),
        f.backend() == o.backend(),
        independent(items(o)),
        apart(visited, items(o)),
    ensures
        r matches WalkStep::Yield(p) ==> !visited.contains(p.location()),
        independent(items(f)),
        apart(
            match r {
                WalkStep::Yield(p) => visited.push(p.location()),
                _ => visited,
            },
            items(f),
        ),
{
    let fs = o.backend();
    let io = items(o);
    let pl = o.pending().len() as int;
    if o.next_index() < o.names().len() {
        let c = o.dir().push(o.names()[o.next_index()]);
        assert(io[pl] == c);
        if f.pending() == o.pending().push(c) {
            assert(items(f) =~= io);
        } else {
            assert(items(f) =~= io.remove(pl));
            lemma_remove_keeps(visited, io, pl);
        }
    } else if o.pending().len() > 0 {
        let d = o.pending().last();
        assert(io =~= o.pending());
        match fs.listing(d) {
            Ok(names) => {
                lemma_listing_distinct(fs, d);
                lemma_expand_keeps(visited, io, names);
                assert(items(f) =~= o.pending().drop_last() + Seq::new(names.len(), |k: int| d.push(names[k])));
            },
            Err(_) => {
                assert(items(f) =~= io.remove(pl - 1));
                lemma_remove_keeps(visited, io, pl - 1);
            },
        }
    } else {
        assert(items(f) =~= io);
    }
}

} // verus!
