use vstd::prelude::*;

use std::collections::VecDeque;
use std::sync::Arc;

use crate::boxed::{BoxedFs, BoxedPath};
use crate::error::{Error, ErrorKind};
use crate::memory::loc_views;
use crate::glob::{any_accepts, Globber};
use crate::path::{child_segments, path_text, render, seg_views};
use crate::types::FileType;

verus! {

/// How far a resolution looks once it has found a match.
#[derive(Debug, Clone, Copy, PartialEq, Eq, Structural)]
pub enum ResolveType {
    /// After a match, the rest of its directory is skipped and the search
    /// goes on in the next queued directory.
    Project,
    /// Every matching file is reported.
    File,
}

/// Finds the files below a directory whose string form matches any of a set
/// of glob patterns, breadth first.
pub struct Resolver {
    ty: ResolveType,
    patterns: Globber,
}

/// What one step of a resolution did.
pub enum ResolveStep {
    /// A matching file.
    Found(BoxedPath),
    /// A listing or a metadata query failed.
    Failed(Error),
    /// An entry that is not reported, or a directory that was opened.
    Skip,
    /// Nothing is left to look at.
    Done,
}

impl Resolver {
    pub closed spec fn spec_patterns(&self) -> Seq<Seq<char>> {
        self.patterns.patterns()
    }

    pub fn new(ty: ResolveType, patterns: Globber) -> (r: Resolver)
        ensures
            r.spec_patterns() == patterns.patterns(),
    {
        Resolver { ty, patterns }
    }

    /// Starts a resolution below the directory `path`.
    pub fn resolve(self, path: &BoxedPath) -> (r: Result<ResolveIter, Error>)
        requires
            path.backend().wf(),
        ensures
            r is Ok ==> r->Ok_0.wf() && r->Ok_0.backend() == path.backend()
                && r->Ok_0.spec_patterns() == self.spec_patterns(),
            r is Ok <==> path.backend().listing(path.location()) is Ok,
    {
        let fs = path.handle().clone();
        let dir = path.segments().clone();
        match fs.list_at(&dir) {
            Ok(names) => Ok(ResolveIter {
                fs,
                current: Some((dir, names, 0)),
                queue: VecDeque::new(),
                ty: self.ty,
                patterns: self.patterns,
            }),
            Err(e) => Err(e),
        }
    }
}

/// A resolution in progress: the directory being read, and the directories
/// queued behind it.
pub struct ResolveIter {
    fs: Arc<BoxedFs>,
    current: Option<(Vec<String>, Vec<String>, usize)>,
    queue: VecDeque<Vec<String>>,
    ty: ResolveType,
    patterns: Globber,
}

impl ResolveIter {
    pub closed spec fn backend(&self) -> BoxedFs {
        *self.fs
    }

    pub closed spec fn spec_patterns(&self) -> Seq<Seq<char>> {
        self.patterns.patterns()
    }

    /// The directory being read, its entries' names, and the index of the next one.
    pub closed spec fn cursor(&self) -> Option<(Seq<Seq<char>>, Seq<Seq<char>>, int)> {
        match self.current {
            Some(c) => Some((seg_views(c.0@), seg_views(c.1@), c.2 as int)),
            None => None,
        }
    }

    /// The directories waiting to be read, first in line first.
    pub closed spec fn queued(&self) -> Seq<Seq<Seq<char>>> {
        loc_views(self.queue@)
    }

    pub closed spec fn project(&self) -> bool {
        self.ty == ResolveType::Project
    }

    pub closed spec fn wf(&self) -> bool {
        &&& self.backend().wf()
        &&& match self.current {
            Some(c) => c.2 <= c.1@.len(),
            None => true,
        }
    }

    /// Looks at the next entry of the directory being read: a directory is
    /// queued, a matching file is found (in `Project` mode the rest of its
    /// directory is then dropped), anything else is skipped. Once the entries
    /// are used up, the first queued directory is listed; when none is left,
    /// the resolution is done.
    pub fn step(&mut self) -> (r: ResolveStep)
        requires
            old(self).wf(),
        ensures
            final(self).wf(),
            final(self).backend() == old(self).backend(),
            final(self).spec_patterns() == old(self).spec_patterns(),
            final(self).project() == old(self).project(),
            ({
                let o = *old(self);
                let f = *final(self);
                match o.cursor() {
                    None => r is Done && f.cursor() is None && f.queued() == o.queued(),
                    Some(cur) => {
                        let (d, ns, n) = cur;
                        if n < ns.len() {
                            let c = d.push(ns[n]);
                            match o.backend().entry(c) {
                                None => (r matches ResolveStep::Failed(e) && e.kind == ErrorKind::NotFound)
                                    && f.cursor() == Some((d, ns, n + 1)) && f.queued() == o.queued(),
                                Some(en) => if en.0 == FileType::Dir {
                                    r is Skip && f.cursor() == Some((d, ns, n + 1)) && f.queued() == o.queued().push(c)
                                } else if any_accepts(o.spec_patterns(), path_text(c)) {
                                    &&& (r matches ResolveStep::Found(p) && p.backend() == o.backend() && p.location() == c)
                                    &&& f.queued() == o.queued()
                                    &&& f.cursor() == if o.project() {
                                        Some((d, ns, ns.len() as int))
                                    } else {
                                        Some((d, ns, n + 1))
                                    }
                                } else {
                                    r is Skip && f.cursor() == Some((d, ns, n + 1)) && f.queued() == o.queued()
                                },
                            }
                        } else if o.queued().len() == 0 {
                            r is Done && f.cursor() is None && f.queued() == o.queued()
                        } else {
                            let q = o.queued()[0];
                            &&& f.queued() == o.queued().drop_first()
                            &&& match o.backend().listing(q) {
                                Ok(names) => r is Skip && f.cursor() == Some((q, names, 0int)),
                                Err(k) => (r matches ResolveStep::Failed(e) && e.kind == k) && f.cursor() is None,
                            }
                        }
                    },
                }
            }),
    {
        let (dir, names, next) = match self.current.take() {
            Some(c) => c,
            None => {
                return ResolveStep::Done;
            },
        };
        if next >= names.len() {
            let ghost before = self.queue@;
            let d = match self.queue.pop_front() {
                Some(d) => d,
                None => {
                    return ResolveStep::Done;
                },
            };
            proof {
                assert(before[0] == d);
                assert(self.queued() =~= old(self).queued().drop_first());
            }
            return match self.fs.list_at(&d) {
                Ok(ns) => {
                    self.current = Some((d, ns, 0));
                    ResolveStep::Skip
                },
                Err(e) => ResolveStep::Failed(e),
            };
        }
        let entry = child_segments(&dir, &names[next]);
        let len = names.len();
        self.current = Some((dir, names, next + 1));
        let meta = match self.fs.metadata_at(&entry) {
            Ok(m) => m,
            Err(e) => {
                return ResolveStep::Failed(e);
            },
        };
        if meta.is_dir() {
            let ghost before = self.queue@;
            self.queue.push_back(entry);
            proof {
                assert(loc_views(self.queue@) =~= loc_views(before).push(seg_views(entry@)));
                assert(self.queued() =~= old(self).queued().push(seg_views(entry@)));
            }
            return ResolveStep::Skip;
        }
        let text = render(&entry);
        if self.patterns.is_match(text.as_str()) {
            if self.ty == ResolveType::Project {
                let (dir, names, _) = match self.current.take() {
                    Some(c) => c,
                    None => {
                        return ResolveStep::Done;
                    },
                };
                self.current = Some((dir, names, len));
            }
            return ResolveStep::Found(BoxedPath::from_parts(self.fs.clone(), entry));
        }
        ResolveStep::Skip
    }
}

} // verus!
