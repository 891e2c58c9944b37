use vstd::prelude::*;

use crate::error::{Error, ErrorKind};
use crate::path::{
    extension_of, extension_of_name, leaf_name, leaf_of, parent_of, parent_segments, parse_path, path_text,
    render, resolve_segments, resolved, seg_views,
};

verus! {

/// A directory of the host filesystem, named by its path text, under which
/// locations are resolved. Nothing here touches the disk: the host I/O is
/// done by the caller with the texts this type computes.
#[derive(Debug)]
pub struct PhysicalFS {
    root: String,
}

/// A location below a `PhysicalFS` root.
#[derive(Debug)]
pub struct PhysicalPath {
    root: String,
    segs: Vec<String>,
}

/// The host path text of a location below `root`.
pub open spec fn host_text(root: Seq<char>, loc: Seq<Seq<char>>) -> Seq<char> {
    if loc.len() == 0 {
        root
    } else {
        root + path_text(loc)
    }
}

impl PhysicalFS {
    pub closed spec fn root_text(&self) -> Seq<char> {
        self.root@
    }

    /// A filesystem rooted at the host directory `root`; an empty text names
    /// no directory and is refused.
    pub fn new(root: &str) -> (r: Result<PhysicalFS, Error>)
        ensures
            root@.len() > 0 ==> r is Ok && r->Ok_0.root_text() == root@,
            root@.len() == 0 ==> r is Err && r->Err_0.kind == ErrorKind::InvalidInput,
    {
        if root.unicode_len() == 0 {
            return Err(Error::new(ErrorKind::InvalidInput, "empty root"));
        }
        Ok(PhysicalFS { root: root.to_owned() })
    }

    /// The host directory this filesystem is rooted at.
    pub fn root(&self) -> (r: &String)
        ensures
            r@ == self.root_text(),
    {
        &self.root
    }

    /// The location that `p` denotes below the root; fails where `p` climbs
    /// above it.
    pub fn path(&self, p: &str) -> (r: Result<PhysicalPath, Error>)
        ensures
            match resolved(Seq::empty(), p@) {
                Some(loc) => r is Ok && r->Ok_0.root_text() == self.root_text() && r->Ok_0.location() == loc,
                None => r is Err && r->Err_0.kind == ErrorKind::InvalidInput,
            },
    {
        match parse_path(p) {
            Some(segs) => Ok(PhysicalPath { root: self.root.clone(), segs }),
            None => Err(Error::new(ErrorKind::InvalidInput, "the path climbs above the root")),
        }
    }
}

impl PhysicalPath {
    pub closed spec fn root_text(&self) -> Seq<char> {
        self.root@
    }

    pub closed spec fn location(&self) -> Seq<Seq<char>> {
        seg_views(self.segs@)
    }

    /// The string form relative to the root: `/` for the root, else `/a/b`.
    pub fn to_string(&self) -> (r: String)
        ensures
            r@ == path_text(self.location()),
    {
        render(&self.segs)
    }

    /// The host path text: the root followed by the string form.
    pub fn to_path_buf(&self) -> (r: Option<String>)
        ensures
            r is Some && r->Some_0@ == host_text(self.root_text(), self.location()),
    {
        let mut out = self.root.clone();
        if self.segs.len() > 0 {
            let rel = render(&self.segs);
            out.append(rel.as_str());
        }
        Some(out)
    }

    pub fn file_name(&self) -> (r: Option<String>)
        ensures
            match r {
                Some(n) => leaf_of(self.location()) == Some(n@),
                None => leaf_of(self.location()).is_none(),
            },
    {
        leaf_name(&self.segs)
    }

    pub fn extension(&self) -> (r: Option<String>)
        ensures
            match leaf_of(self.location()) {
                Some(n) => match r {
                    Some(e) => extension_of(n) == Some(e@),
                    None => extension_of(n).is_none(),
                },
                None => r.is_none(),
            },
    {
        match leaf_name(&self.segs) {
            Some(n) => extension_of_name(n.as_str()),
            None => None,
        }
    }

    /// The enclosing location; the root has none.
    pub fn parent(&self) -> (r: Option<PhysicalPath>)
        ensures
            match parent_of(self.location()) {
                Some(loc) => r is Some && r->Some_0.root_text() == self.root_text() && r->Some_0.location() == loc,
                None => r is None,
            },
    {
        match parent_segments(&self.segs) {
            Some(segs) => Some(PhysicalPath { root: self.root.clone(), segs }),
            None => None,
        }
    }

    /// The location that `p` denotes relative to this one.
    pub fn resolve(&self, p: &str) -> (r: Result<PhysicalPath, Error>)
        ensures
            match resolved(self.location(), p@) {
                Some(loc) => r is Ok && r->Ok_0.root_text() == self.root_text() && r->Ok_0.location() == loc,
                None => r is Err && r->Err_0.kind == ErrorKind::InvalidInput,
            },
    {
        match resolve_segments(&self.segs, p) {
            Some(segs) => Ok(PhysicalPath { root: self.root.clone(), segs }),
            None => Err(Error::new(ErrorKind::InvalidInput, "the path climbs above the root")),
        }
    }
}

} // verus!
