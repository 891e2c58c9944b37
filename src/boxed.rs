use vstd::prelude::*;

use std::sync::Arc;

use crate::composite::{mount_names, valid_mount_name, Composite, Mount};
use crate::error::{Error, ErrorKind};
use crate::memory::{
    deep_store_error, is_prefix, no_file_on_the_way, metadata_result, read_result, result_matches, root_node, store_error, MemoryFS, MemoryFile, NodeView,
};
use crate::overlay::{merge_listing, merge_names, Merge};
use crate::path::{
    append_segments, child_segments, extension_of, extension_of_name, leaf_name, leaf_of, parent_of, parent_segments,
    parse_path, path_text, position_of, render, resolve_segments, resolved, seg_views, tail_segments,
};
use crate::types::{FileType, Metadata, OpenOptions};

verus! {

/// Any filesystem of this library behind one type, so that filesystems of
/// different kinds can be composed and nested.
#[derive(Debug)]
pub enum BoxedFs {
    Memory(MemoryFS),
    Overlay(Box<Merge>),
    Composite(Composite),
    /// Holds nothing: every location is missing.
    Empty,
}

impl BoxedFs {
    /// Well-formed at every level of nesting.
    pub open spec fn wf(&self) -> bool
        decreases self,
    {
        match self {
            BoxedFs::Memory(m) => m.wf(),
            BoxedFs::Overlay(b) => b.lower.wf() && b.upper.wf(),
            BoxedFs::Composite(c) => {
                &&& mount_names(c.mounts@).no_duplicates()
                &&& forall|i: int| 0 <= i < c.mounts@.len() ==> valid_mount_name(#[trigger] c.mounts@[i].name@)
                &&& forall|i: int| 0 <= i < c.mounts@.len() ==> (#[trigger] c.mounts@[i]).fs.wf()
            },
            BoxedFs::Empty => true,
        }
    }

    /// The entry at location `k`, if there is one.
    pub open spec fn entry(&self, k: Seq<Seq<char>>) -> Option<NodeView>
        decreases self,
    {
        match self {
            BoxedFs::Memory(m) => m.entry(k),
            BoxedFs::Overlay(b) => match b.upper.entry(k) {
                Some(n) => Some(n),
                None => b.lower.entry(k),
            },
            BoxedFs::Composite(c) => if k.len() == 0 {
                Some(root_node())
            } else {
                match position_of(mount_names(c.mounts@), k[0]) {
                    Some(i) => if 0 <= i < c.mounts@.len() {
                        if k.len() == 1 {
                            Some(root_node())
                        } else {
                            c.mounts@[i].fs.entry(k.drop_first())
                        }
                    } else {
                        None
                    },
                    None => None,
                }
            },
            BoxedFs::Empty => None,
        }
    }

    /// The names inside the directory at `d`, or why it cannot be listed.
    pub open spec fn listing(&self, d: Seq<Seq<char>>) -> Result<Seq<Seq<char>>, ErrorKind>
        decreases self,
    {
        match self {
            BoxedFs::Memory(m) => match m.listing(d) {
                Some(names) => Ok(names),
                None => Err(if m.entry(d).is_none() { ErrorKind::NotFound } else { ErrorKind::Other }),
            },
            BoxedFs::Overlay(b) => match (b.upper.listing(d), b.lower.listing(d)) {
                (Ok(u), Ok(l)) => Ok(merge_names(u, l)),
                (Ok(u), Err(_)) => Ok(u),
                (Err(e), Ok(l)) => if b.upper.entry(d) is Some {
                    Err(e)
                } else {
                    Ok(l)
                },
                (Err(e), Err(_)) => Err(e),
            },
            BoxedFs::Composite(c) => if d.len() == 0 {
                Ok(mount_names(c.mounts@))
            } else {
                match position_of(mount_names(c.mounts@), d[0]) {
                    Some(i) => if 0 <= i < c.mounts@.len() {
                        c.mounts@[i].fs.listing(d.drop_first())
                    } else {
                        Err(ErrorKind::NotFound)
                    },
                    None => Err(ErrorKind::NotFound),
                }
            },
            BoxedFs::Empty => Err(ErrorKind::NotFound),
        }
    }

    /// Is there an entry at `k`?
    pub fn exists_at(&self, k: &Vec<String>) -> (r: bool)
        requires
            self.wf(),
        ensures
            r == self.entry(seg_views(k@)).is_some(),
        decreases self,
    {
        match self {
            BoxedFs::Memory(m) => m.exists_at(k),
            BoxedFs::Overlay(b) => b.upper.exists_at(k) || b.lower.exists_at(k),
            BoxedFs::Composite(c) => {
                if k.len() == 0 {
                    return true;
                }
                match c.find_mount(&k[0]) {
                    Some(i) => {
                        if k.len() == 1 {
                            return true;
                        }
                        let rest = tail_segments(k);
                        c.mounts[i].fs.exists_at(&rest)
                    },
                    None => false,
                }
            },
            BoxedFs::Empty => false,
        }
    }

    /// The metadata of the entry at `k`.
    pub fn metadata_at(&self, k: &Vec<String>) -> (r: Result<Metadata, Error>)
        requires
            self.wf(),
        ensures
            result_matches(r, metadata_result(self.entry(seg_views(k@)))),
        decreases self,
    {
        match self {
            BoxedFs::Memory(m) => m.metadata_at(k),
            BoxedFs::Overlay(b) => {
                if b.upper.exists_at(k) {
                    b.upper.metadata_at(k)
                } else {
                    b.lower.metadata_at(k)
                }
            },
            BoxedFs::Composite(c) => {
                if k.len() == 0 {
                    return Ok(Metadata::dir());
                }
                match c.find_mount(&k[0]) {
                    Some(i) => {
                        if k.len() == 1 {
                            return Ok(Metadata::dir());
                        }
                        let rest = tail_segments(k);
                        c.mounts[i].fs.metadata_at(&rest)
                    },
                    None => Err(Error::new(ErrorKind::NotFound, "no such mount")),
                }
            },
            BoxedFs::Empty => Err(Error::new(ErrorKind::NotFound, "empty filesystem")),
        }
    }

    /// The bytes of the file at `k`.
    pub fn read_at(&self, k: &Vec<String>) -> (r: Result<Vec<u8>, Error>)
        requires
            self.wf(),
        ensures
            match read_result(self.entry(seg_views(k@))) {
                Ok(b) => r is Ok && r->Ok_0@ == b,
                Err(e) => r is Err && r->Err_0.kind == e,
            },
        decreases self,
    {
        match self {
            BoxedFs::Memory(m) => m.read_at(k),
            BoxedFs::Overlay(b) => {
                if b.upper.exists_at(k) {
                    b.upper.read_at(k)
                } else {
                    b.lower.read_at(k)
                }
            },
            BoxedFs::Composite(c) => {
                if k.len() == 0 {
                    return Err(Error::new(ErrorKind::Other, "is a directory"));
                }
                match c.find_mount(&k[0]) {
                    Some(i) => {
                        if k.len() == 1 {
                            return Err(Error::new(ErrorKind::Other, "is a directory"));
                        }
                        let rest = tail_segments(k);
                        c.mounts[i].fs.read_at(&rest)
                    },
                    None => Err(Error::new(ErrorKind::NotFound, "no such mount")),
                }
            },
            BoxedFs::Empty => Err(Error::new(ErrorKind::NotFound, "empty filesystem")),
        }
    }

    /// The names inside the directory at `d`.
    pub fn list_at(&self, d: &Vec<String>) -> (r: Result<Vec<String>, Error>)
        requires
            self.wf(),
        ensures
            match self.listing(seg_views(d@)) {
                Ok(names) => r is Ok && seg_views(r->Ok_0@) == names,
                Err(e) => r is Err && r->Err_0.kind == e,
            },
        decreases self,
    {
        match self {
            BoxedFs::Memory(m) => m.list_at(d),
            BoxedFs::Overlay(b) => {
                let u = b.upper.list_at(d);
                let l = b.lower.list_at(d);
                match (u, l) {
                    (Ok(u), Ok(l)) => Ok(merge_listing(&u, &l)),
                    (Ok(u), Err(_)) => Ok(u),
                    (Err(e), Ok(l)) => {
                        if b.upper.exists_at(d) {
                            Err(e)
                        } else {
                            Ok(l)
                        }
                    },
                    (Err(e), Err(_)) => Err(e),
                }
            },
            BoxedFs::Composite(c) => {
                if d.len() == 0 {
                    return Ok(c.names());
                }
                match c.find_mount(&d[0]) {
                    Some(i) => {
                        let rest = tail_segments(d);
                        c.mounts[i].fs.list_at(&rest)
                    },
                    None => Err(Error::new(ErrorKind::NotFound, "no such mount")),
                }
            },
            BoxedFs::Empty => Err(Error::new(ErrorKind::NotFound, "empty filesystem")),
        }
    }
}

impl BoxedFs {
    /// Why storing a file at `k` fails, if it does: overlays are read-only,
    /// the composite root holds only mounts, and below a mount the mounted
    /// filesystem decides.
    pub open spec fn store_outcome(&self, k: Seq<Seq<char>>) -> Option<ErrorKind>
        decreases self,
    {
        match self {
            BoxedFs::Memory(m) => store_error(m, k),
            BoxedFs::Overlay(_) => Some(ErrorKind::PermissionDenied),
            BoxedFs::Composite(c) => if k.len() == 0 {
                Some(ErrorKind::PermissionDenied)
            } else {
                match position_of(mount_names(c.mounts@), k[0]) {
                    Some(i) => if 0 <= i < c.mounts@.len() {
                        c.mounts@[i].fs.store_outcome(k.drop_first())
                    } else {
                        Some(ErrorKind::NotFound)
                    },
                    None => Some(ErrorKind::NotFound),
                }
            },
            BoxedFs::Empty => Some(ErrorKind::NotFound),
        }
    }

    /// Stores `data` as the file at `k` of the filesystem `fs`, which is
    /// handed back, changed or not, beside the outcome.
    fn store_owned(fs: BoxedFs, k: &Vec<String>, data: Vec<u8>) -> (r: (BoxedFs, Result<(), Error>))
        requires
            fs.wf(),
        ensures
            r.0.wf(),
            match fs.store_outcome(seg_views(k@)) {
                Some(e) => r.1 is Err && r.1->Err_0.kind == e,
                None => r.1 is Ok,
            },
            forall|x: Seq<Seq<char>>| #[trigger] r.0.entry(x) == if r.1 is Ok && x == seg_views(k@) {
                Some((FileType::File, data@))
            } else {
                fs.entry(x)
            },
            r.1 is Err && !(fs is Composite) ==> r.0 == fs,
        decreases fs,
    {
        match fs {
            BoxedFs::Memory(mut m) => {
                let r = m.write_file_at(k, data);
                (BoxedFs::Memory(m), r)
            },
            BoxedFs::Overlay(b) => (BoxedFs::Overlay(b), Err(Error::new(ErrorKind::PermissionDenied, "an overlay is read-only"))),
            BoxedFs::Composite(mut c) => {
                if k.len() == 0 {
                    return (BoxedFs::Composite(c), Err(Error::new(ErrorKind::PermissionDenied, "the composite root holds only mounts")));
                }
                match c.find_mount(&k[0]) {
                    Some(i) => {
                        let ghost kv = seg_views(k@);
                        let ghost before = c.mounts@;
                        let ghost old_mounts = c.mounts;
                        let ghost names = mount_names(before);
                        let rest = tail_segments(k);
                        let m = c.mounts.remove(i);
                        proof {
                            assert(m == before[i as int]);
                            assert(m.fs.wf());
                        }
                        let Mount { name, fs: inner } = m;
                        let (inner, r) = Self::store_owned(inner, &rest, data);
                        let m2 = Mount { name, fs: inner };
                        c.mounts.insert(i, m2);
                        proof {
                            assert(c.mounts@ =~= before.update(i as int, m2));
                            assert(mount_names(c.mounts@) =~= names);
                            crate::path::lemma_position_of(names, kv[0]);
                            assert forall|j: int| 0 <= j < c.mounts@.len() implies (#[trigger] c.mounts@[j]).fs.wf() by {
                                if j != i {
                                    assert(c.mounts@[j] == before[j]);
                                }
                            }
                            assert forall|j: int| 0 <= j < c.mounts@.len() implies valid_mount_name(#[trigger] c.mounts@[j].name@) by {
                                if j != i {
                                    assert(c.mounts@[j] == before[j]);
                                }
                            }
                            assert forall|x: Seq<Seq<char>>| #[trigger] BoxedFs::Composite(c).entry(x) == if r is Ok && x == kv {
                                Some((FileType::File, data@))
                            } else {
                                fs.entry(x)
                            } by {
                                if x.len() > 0 {
                                    crate::path::lemma_position_of(names, x[0]);
                                    if position_of(names, x[0]) == Some(i as int) {
                                        assert(fs == BoxedFs::Composite(Composite { mounts: old_mounts }));
                                        lemma_root_store_refused(before[i as int].fs);
                                        if x.len() > 1 {
                                            assert(BoxedFs::Composite(c).entry(x) == c.mounts@[i as int].fs.entry(x.drop_first()));
                                            assert(fs.entry(x) == before[i as int].fs.entry(x.drop_first()));
                                        }
                                        if x.drop_first() == kv.drop_first() {
                                            assert(x =~= kv) by {
                                                assert forall|t: int| 0 <= t < x.len() implies x[t] == kv[t] by {
                                                    if t > 0 {
                                                        assert(x[t] == x.drop_first()[t - 1]);
                                                        assert(kv[t] == kv.drop_first()[t - 1]);
                                                    }
                                                }
                                            }
                                        } else {
                                            assert(x != kv);
                                        }
                                    } else {
                                        if x == kv {
                                            assert(false);
                                        }
                                        match position_of(names, x[0]) {
                                            Some(j) => {
                                                assert(c.mounts@[j] == before[j]);
                                            },
                                            None => {},
                                        }
                                    }
                                } else {
                                    assert(x != kv);
                                }
                            }
                        }
                        (BoxedFs::Composite(c), r)
                    },
                    None => (BoxedFs::Composite(c), Err(Error::new(ErrorKind::NotFound, "no such mount"))),
                }
            },
            BoxedFs::Empty => (BoxedFs::Empty, Err(Error::new(ErrorKind::NotFound, "empty filesystem"))),
        }
    }

    /// Writes `data` as the whole content of the file at `k`.
    pub fn write_file_at(&mut self, k: &Vec<String>, data: Vec<u8>) -> (r: Result<(), Error>)
        requires
            old(self).wf(),
        ensures
            final(self).wf(),
            match old(self).store_outcome(seg_views(k@)) {
                Some(e) => r is Err && r->Err_0.kind == e,
                None => r is Ok,
            },
            forall|x: Seq<Seq<char>>| #[trigger] final(self).entry(x) == if r is Ok && x == seg_views(k@) {
                Some((FileType::File, data@))
            } else {
                old(self).entry(x)
            },
            r is Err ==> *final(self) == *old(self),
    {
        match self.store_check(k, false) {
            Some(e) => {
                return Err(Error::new(e, "refused"));
            },
            None => {},
        }
        let mut taken = BoxedFs::Empty;
        std::mem::swap(self, &mut taken);
        let (back, r) = Self::store_owned(taken, k, data);
        *self = back;
        r
    }

    /// Writes `data` as the whole content of the file at the path `p`.
    pub fn write_file(&mut self, p: &str, data: Vec<u8>) -> (r: Result<(), Error>)
        requires
            old(self).wf(),
        ensures
            final(self).wf(),
            match resolved(Seq::empty(), p@) {
                Some(k) => (match old(self).store_outcome(k) {
                    Some(e) => r is Err && r->Err_0.kind == e,
                    None => r is Ok,
                }) && forall|x: Seq<Seq<char>>| #[trigger] final(self).entry(x) == if r is Ok && x == k {
                    Some((FileType::File, data@))
                } else {
                    old(self).entry(x)
                },
                None => r is Err && r->Err_0.kind == ErrorKind::InvalidInput && *final(self) == *old(self),
            },
    {
        match parse_path(p) {
            Some(k) => self.write_file_at(&k, data),
            None => Err(Error::new(ErrorKind::InvalidInput, "the path climbs above the root")),
        }
    }
}

impl BoxedFs {
    /// Why creating the directory at `k` fails, if it does.
    pub open spec fn mkdir_outcome(&self, k: Seq<Seq<char>>) -> Option<ErrorKind>
        decreases self,
    {
        match self {
            BoxedFs::Memory(m) => if no_file_on_the_way(m, k) {
                None
            } else {
                Some(ErrorKind::Other)
            },
            BoxedFs::Overlay(_) => Some(ErrorKind::PermissionDenied),
            BoxedFs::Composite(c) => if k.len() == 0 {
                Some(ErrorKind::PermissionDenied)
            } else {
                match position_of(mount_names(c.mounts@), k[0]) {
                    Some(i) => if 0 <= i < c.mounts@.len() {
                        c.mounts@[i].fs.mkdir_outcome(k.drop_first())
                    } else {
                        Some(ErrorKind::NotFound)
                    },
                    None => Some(ErrorKind::NotFound),
                }
            },
            BoxedFs::Empty => Some(ErrorKind::NotFound),
        }
    }

    /// Why removing the entry at `k` fails, if it does.
    pub open spec fn remove_outcome(&self, k: Seq<Seq<char>>) -> Option<ErrorKind>
        decreases self,
    {
        match self {
            BoxedFs::Memory(m) => if k.len() == 0 {
                Some(ErrorKind::PermissionDenied)
            } else if m.entry(k) is None {
                Some(ErrorKind::NotFound)
            } else {
                None
            },
            BoxedFs::Overlay(_) => Some(ErrorKind::PermissionDenied),
            BoxedFs::Composite(c) => if k.len() == 0 {
                Some(ErrorKind::PermissionDenied)
            } else {
                match position_of(mount_names(c.mounts@), k[0]) {
                    Some(i) => if 0 <= i < c.mounts@.len() {
                        if k.len() == 1 {
                            Some(ErrorKind::PermissionDenied)
                        } else {
                            c.mounts@[i].fs.remove_outcome(k.drop_first())
                        }
                    } else {
                        Some(ErrorKind::NotFound)
                    },
                    None => Some(ErrorKind::NotFound),
                }
            },
            BoxedFs::Empty => Some(ErrorKind::NotFound),
        }
    }

    fn mkdir_owned(fs: BoxedFs, k: &Vec<String>) -> (r: (BoxedFs, Result<(), Error>))
        requires
            fs.wf(),
        ensures
            r.0.wf(),
            match fs.mkdir_outcome(seg_views(k@)) {
                Some(e) => r.1 is Err && r.1->Err_0.kind == e,
                None => r.1 is Ok,
            },
            r.1 is Ok ==> match r.0.entry(seg_views(k@)) {
                Some(n) => n.0 == FileType::Dir,
                None => false,
            },
            forall|x: Seq<Seq<char>>| fs.entry(x) is Some ==> #[trigger] r.0.entry(x) == fs.entry(x),
            r.1 is Err ==> forall|x: Seq<Seq<char>>| #[trigger] r.0.entry(x) == fs.entry(x),
            r.1 is Err && !(fs is Composite) ==> r.0 == fs,
        decreases fs,
    {
        match fs {
            BoxedFs::Memory(mut m) => {
                let r = m.create_dir_at(k);
                proof {
                    if r is Ok {
                        assert(seg_views(k@).subrange(0, k.len() as int) =~= seg_views(k@));
                    }
                }
                (BoxedFs::Memory(m), r)
            },
            BoxedFs::Overlay(b) => (BoxedFs::Overlay(b), Err(Error::new(ErrorKind::PermissionDenied, "an overlay is read-only"))),
            BoxedFs::Composite(mut c) => {
                if k.len() == 0 {
                    return (BoxedFs::Composite(c), Err(Error::new(ErrorKind::PermissionDenied, "the composite root holds only mounts")));
                }
                match c.find_mount(&k[0]) {
                    Some(i) => {
                        let ghost kv = seg_views(k@);
                        let ghost before = c.mounts@;
                        let ghost old_mounts = c.mounts;
                        let ghost names = mount_names(before);
                        let rest = tail_segments(k);
                        let m = c.mounts.remove(i);
                        proof {
                            assert(m == before[i as int]);
                        }
                        let Mount { name, fs: inner } = m;
                        let (inner, r) = Self::mkdir_owned(inner, &rest);
                        let m2 = Mount { name, fs: inner };
                        c.mounts.insert(i, m2);
                        proof {
                            assert(c.mounts@ =~= before.update(i as int, m2));
                            assert(mount_names(c.mounts@) =~= names);
                            crate::path::lemma_position_of(names, kv[0]);
                            assert forall|j: int| 0 <= j < c.mounts@.len() implies (#[trigger] c.mounts@[j]).fs.wf() by {
                                if j != i {
                                    assert(c.mounts@[j] == before[j]);
                                }
                            }
                            assert forall|j: int| 0 <= j < c.mounts@.len() implies valid_mount_name(#[trigger] c.mounts@[j].name@) by {
                                if j != i {
                                    assert(c.mounts@[j] == before[j]);
                                }
                            }
                            assert(fs == BoxedFs::Composite(Composite { mounts: old_mounts }));
                            if kv.len() > 1 {
                                assert(BoxedFs::Composite(c).entry(kv) == c.mounts@[i as int].fs.entry(kv.drop_first()));
                            }
                            assert forall|x: Seq<Seq<char>>| #[trigger] BoxedFs::Composite(c).entry(x) == fs.entry(x) || (r is Ok && fs.entry(x) is None) by {
                                if x.len() > 0 {
                                    crate::path::lemma_position_of(names, x[0]);
                                    match position_of(names, x[0]) {
                                        Some(j) => {
                                            if j != i {
                                                assert(c.mounts@[j] == before[j]);
                                            } else {
                                                if x.len() > 1 {
                                                    assert(BoxedFs::Composite(c).entry(x) == c.mounts@[i as int].fs.entry(x.drop_first()));
                                                    assert(fs.entry(x) == before[i as int].fs.entry(x.drop_first()));
                                                }
                                            }
                                        },
                                        None => {},
                                    }
                                }
                            }
                        }
                        (BoxedFs::Composite(c), r)
                    },
                    None => (BoxedFs::Composite(c), Err(Error::new(ErrorKind::NotFound, "no such mount"))),
                }
            },
            BoxedFs::Empty => (BoxedFs::Empty, Err(Error::new(ErrorKind::NotFound, "empty filesystem"))),
        }
    }

    /// Creates the directory at `k`, with every missing directory above it.
    pub fn create_dir_at(&mut self, k: &Vec<String>) -> (r: Result<(), Error>)
        requires
            old(self).wf(),
        ensures
            final(self).wf(),
            match old(self).mkdir_outcome(seg_views(k@)) {
                Some(e) => r is Err && r->Err_0.kind == e,
                None => r is Ok,
            },
            r is Ok ==> match final(self).entry(seg_views(k@)) {
                Some(n) => n.0 == FileType::Dir,
                None => false,
            },
            forall|x: Seq<Seq<char>>| old(self).entry(x) is Some ==> #[trigger] final(self).entry(x) == old(self).entry(x),
            r is Err ==> forall|x: Seq<Seq<char>>| #[trigger] final(self).entry(x) == old(self).entry(x),
            r is Err ==> *final(self) == *old(self),
    {
        match self.mkdir_check(k) {
            Some(e) => {
                return Err(Error::new(e, "refused"));
            },
            None => {},
        }
        let mut taken = BoxedFs::Empty;
        std::mem::swap(self, &mut taken);
        let (back, r) = Self::mkdir_owned(taken, k);
        *self = back;
        r
    }

    fn remove_owned(fs: BoxedFs, k: &Vec<String>) -> (r: (BoxedFs, Result<(), Error>))
        requires
            fs.wf(),
        ensures
            r.0.wf(),
            match fs.remove_outcome(seg_views(k@)) {
                Some(e) => r.1 is Err && r.1->Err_0.kind == e,
                None => r.1 is Ok,
            },
            forall|x: Seq<Seq<char>>| #[trigger] r.0.entry(x) == if r.1 is Ok && is_prefix(seg_views(k@), x) {
                None
            } else {
                fs.entry(x)
            },
            r.1 is Err && !(fs is Composite) ==> r.0 == fs,
        decreases fs,
    {
        match fs {
            BoxedFs::Memory(mut m) => {
                let r = m.remove_at(k);
                (BoxedFs::Memory(m), r)
            },
            BoxedFs::Overlay(b) => (BoxedFs::Overlay(b), Err(Error::new(ErrorKind::PermissionDenied, "an overlay is read-only"))),
            BoxedFs::Composite(mut c) => {
                if k.len() == 0 {
                    return (BoxedFs::Composite(c), Err(Error::new(ErrorKind::PermissionDenied, "the composite root cannot be removed")));
                }
                match c.find_mount(&k[0]) {
                    Some(i) => {
                        if k.len() == 1 {
                            return (BoxedFs::Composite(c), Err(Error::new(ErrorKind::PermissionDenied, "mounts cannot be removed")));
                        }
                        let ghost kv = seg_views(k@);
                        let ghost before = c.mounts@;
                        let ghost old_mounts = c.mounts;
                        let ghost names = mount_names(before);
                        let rest = tail_segments(k);
                        let m = c.mounts.remove(i);
                        proof {
                            assert(m == before[i as int]);
                        }
                        let Mount { name, fs: inner } = m;
                        let (inner, r) = Self::remove_owned(inner, &rest);
                        let m2 = Mount { name, fs: inner };
                        c.mounts.insert(i, m2);
                        proof {
                            assert(c.mounts@ =~= before.update(i as int, m2));
                            assert(mount_names(c.mounts@) =~= names);
                            crate::path::lemma_position_of(names, kv[0]);
                            assert forall|j: int| 0 <= j < c.mounts@.len() implies (#[trigger] c.mounts@[j]).fs.wf() by {
                                if j != i {
                                    assert(c.mounts@[j] == before[j]);
                                }
                            }
                            assert forall|j: int| 0 <= j < c.mounts@.len() implies valid_mount_name(#[trigger] c.mounts@[j].name@) by {
                                if j != i {
                                    assert(c.mounts@[j] == before[j]);
                                }
                            }
                            assert(fs == BoxedFs::Composite(Composite { mounts: old_mounts }));
                            assert forall|x: Seq<Seq<char>>| #[trigger] BoxedFs::Composite(c).entry(x) == if r is Ok && is_prefix(kv, x) {
                                None
                            } else {
                                fs.entry(x)
                            } by {
                                if x.len() > 0 {
                                    crate::path::lemma_position_of(names, x[0]);
                                    match position_of(names, x[0]) {
                                        Some(j) => {
                                            if j != i {
                                                assert(c.mounts@[j] == before[j]);
                                                if is_prefix(kv, x) {
                                                    assert(x[0] == kv[0]);
                                                }
                                            } else {
                                                let xd = x.drop_first();
                                                let kd = kv.drop_first();
                                                if x.len() > 1 {
                                                    assert(BoxedFs::Composite(c).entry(x) == c.mounts@[i as int].fs.entry(xd));
                                                    assert(fs.entry(x) == before[i as int].fs.entry(xd));
                                                }
                                                if is_prefix(kv, x) {
                                                    assert(xd.subrange(0, kd.len() as int) =~= kd);
                                                } else if is_prefix(kd, xd) {
                                                    assert(x.subrange(0, kv.len() as int) =~= kv) by {
                                                        assert forall|t: int| 0 <= t < kv.len() implies x[t] == kv[t] by {
                                                            if t > 0 {
                                                                assert(x[t] == xd[t - 1]);
                                                                assert(kv[t] == kd[t - 1]);
                                                                assert(xd.subrange(0, kd.len() as int)[t - 1] == xd[t - 1]);
                                                            }
                                                        }
                                                    }
                                                }
                                            }
                                        },
                                        None => {
                                            if is_prefix(kv, x) {
                                                assert(x[0] == kv[0]);
                                            }
                                        },
                                    }
                                } else {
                                    assert(!is_prefix(kv, x));
                                }
                            }
                        }
                        (BoxedFs::Composite(c), r)
                    },
                    None => (BoxedFs::Composite(c), Err(Error::new(ErrorKind::NotFound, "no such mount"))),
                }
            },
            BoxedFs::Empty => (BoxedFs::Empty, Err(Error::new(ErrorKind::NotFound, "empty filesystem"))),
        }
    }

    /// Removes the entry at `k` and everything beneath it.
    pub fn remove_at(&mut self, k: &Vec<String>) -> (r: Result<(), Error>)
        requires
            old(self).wf(),
        ensures
            final(self).wf(),
            match old(self).remove_outcome(seg_views(k@)) {
                Some(e) => r is Err && r->Err_0.kind == e,
                None => r is Ok,
            },
            forall|x: Seq<Seq<char>>| #[trigger] final(self).entry(x) == if r is Ok && is_prefix(seg_views(k@), x) {
                None
            } else {
                old(self).entry(x)
            },
            r is Err ==> *final(self) == *old(self),
    {
        match self.remove_check(k) {
            Some(e) => {
                return Err(Error::new(e, "refused"));
            },
            None => {},
        }
        let mut taken = BoxedFs::Empty;
        std::mem::swap(self, &mut taken);
        let (back, r) = Self::remove_owned(taken, k);
        *self = back;
        r
    }
}

impl BoxedFs {
    /// Creates the directory at the path `p`, with every missing directory above it.
    pub fn create_dir(&mut self, p: &str) -> (r: Result<(), Error>)
        requires
            old(self).wf(),
        ensures
            final(self).wf(),
            forall|x: Seq<Seq<char>>| old(self).entry(x) is Some ==> #[trigger] final(self).entry(x) == old(self).entry(x),
            r is Err ==> forall|x: Seq<Seq<char>>| #[trigger] final(self).entry(x) == old(self).entry(x),
            match resolved(Seq::empty(), p@) {
                Some(k) => (match old(self).mkdir_outcome(k) {
                    Some(e) => r is Err && r->Err_0.kind == e,
                    None => r is Ok,
                }) && (r is Ok ==> match final(self).entry(k) {
                    Some(n) => n.0 == FileType::Dir,
                    None => false,
                }),
                None => r is Err && r->Err_0.kind == ErrorKind::InvalidInput,
            },
    {
        match parse_path(p) {
            Some(k) => self.create_dir_at(&k),
            None => Err(Error::new(ErrorKind::InvalidInput, "the path climbs above the root")),
        }
    }

    /// Removes the entry at the path `p` and everything beneath it.
    pub fn remove(&mut self, p: &str) -> (r: Result<(), Error>)
        requires
            old(self).wf(),
        ensures
            final(self).wf(),
            match resolved(Seq::empty(), p@) {
                Some(k) => (match old(self).remove_outcome(k) {
                    Some(e) => r is Err && r->Err_0.kind == e,
                    None => r is Ok,
                }) && forall|x: Seq<Seq<char>>| #[trigger] final(self).entry(x) == if r is Ok && is_prefix(k, x) {
                    None
                } else {
                    old(self).entry(x)
                },
                None => r is Err && r->Err_0.kind == ErrorKind::InvalidInput && *final(self) == *old(self),
            },
    {
        match parse_path(p) {
            Some(k) => self.remove_at(&k),
            None => Err(Error::new(ErrorKind::InvalidInput, "the path climbs above the root")),
        }
    }
}

impl BoxedFs {
    /// Why storing a file at `k`, with the missing directories above it
    /// created first, fails, if it does.
    pub open spec fn deep_store_outcome(&self, k: Seq<Seq<char>>) -> Option<ErrorKind>
        decreases self,
    {
        match self {
            BoxedFs::Memory(m) => deep_store_error(m, k),
            BoxedFs::Overlay(_) => Some(ErrorKind::PermissionDenied),
            BoxedFs::Composite(c) => if k.len() == 0 {
                Some(ErrorKind::PermissionDenied)
            } else {
                match position_of(mount_names(c.mounts@), k[0]) {
                    Some(i) => if 0 <= i < c.mounts@.len() {
                        c.mounts@[i].fs.deep_store_outcome(k.drop_first())
                    } else {
                        Some(ErrorKind::NotFound)
                    },
                    None => Some(ErrorKind::NotFound),
                }
            },
            BoxedFs::Empty => Some(ErrorKind::NotFound),
        }
    }

    fn deep_store_owned(fs: BoxedFs, k: &Vec<String>, data: Vec<u8>) -> (r: (BoxedFs, Result<(), Error>))
        requires
            fs.wf(),
        ensures
            r.0.wf(),
            match fs.deep_store_outcome(seg_views(k@)) {
                Some(e) => r.1 is Err && r.1->Err_0.kind == e,
                None => r.1 is Ok,
            },
            r.1 is Err ==> forall|x: Seq<Seq<char>>| #[trigger] r.0.entry(x) == fs.entry(x),
            r.1 is Ok ==> r.0.entry(seg_views(k@)) == Some((FileType::File, data@)),
            forall|x: Seq<Seq<char>>| fs.entry(x) is Some && x != seg_views(k@) ==> #[trigger] r.0.entry(x) == fs.entry(x),
            forall|x: Seq<Seq<char>>| fs.entry(x) is None && x != seg_views(k@) ==> (#[trigger] r.0.entry(x) is None
                || (is_prefix(x, seg_views(k@)) && r.0.entry(x)->Some_0.0 == FileType::Dir)),
        decreases fs,
    {
        match fs {
            BoxedFs::Memory(mut m) => {
                let r = m.write_file_creating_at(k, data);
                (BoxedFs::Memory(m), r)
            },
            BoxedFs::Overlay(b) => (BoxedFs::Overlay(b), Err(Error::new(ErrorKind::PermissionDenied, "an overlay is read-only"))),
            BoxedFs::Composite(mut c) => {
                if k.len() == 0 {
                    return (BoxedFs::Composite(c), Err(Error::new(ErrorKind::PermissionDenied, "the composite root holds only mounts")));
                }
                match c.find_mount(&k[0]) {
                    Some(i) => {
                        let ghost kv = seg_views(k@);
                        let ghost before = c.mounts@;
                        let ghost old_mounts = c.mounts;
                        let ghost names = mount_names(before);
                        let rest = tail_segments(k);
                        let m = c.mounts.remove(i);
                        proof {
                            assert(m == before[i as int]);
                        }
                        let Mount { name, fs: inner } = m;
                        let ghost old_inner = inner;
                        let (inner, r) = Self::deep_store_owned(inner, &rest, data);
                        let m2 = Mount { name, fs: inner };
                        c.mounts.insert(i, m2);
                        proof {
                            assert(c.mounts@ =~= before.update(i as int, m2));
                            assert(mount_names(c.mounts@) =~= names);
                            crate::path::lemma_position_of(names, kv[0]);
                            assert(fs == BoxedFs::Composite(Composite { mounts: old_mounts }));
                            assert forall|j: int| 0 <= j < c.mounts@.len() implies (#[trigger] c.mounts@[j]).fs.wf() by {
                                if j != i {
                                    assert(c.mounts@[j] == before[j]);
                                }
                            }
                            assert forall|j: int| 0 <= j < c.mounts@.len() implies valid_mount_name(#[trigger] c.mounts@[j].name@) by {
                                if j != i {
                                    assert(c.mounts@[j] == before[j]);
                                }
                            }
                            if r is Ok {
                                if kv.len() == 1 {
                                    lemma_root_deep_store_refused(old_inner);
                                    assert(kv.drop_first() =~= Seq::<Seq<char>>::empty());
                                }
                                assert(BoxedFs::Composite(c).entry(kv) == c.mounts@[i as int].fs.entry(kv.drop_first()));
                            }
                            assert forall|x: Seq<Seq<char>>| #[trigger] BoxedFs::Composite(c).entry(x) == fs.entry(x) || (
                                x.len() > 1 && x[0] == kv[0] && BoxedFs::Composite(c).entry(x) == inner.entry(x.drop_first())
                                    && fs.entry(x) == old_inner.entry(x.drop_first())) by {
                                if x.len() > 0 {
                                    crate::path::lemma_position_of(names, x[0]);
                                    match position_of(names, x[0]) {
                                        Some(j) => {
                                            if j != i {
                                                assert(c.mounts@[j] == before[j]);
                                            }
                                        },
                                        None => {},
                                    }
                                }
                            }
                            assert forall|x: Seq<Seq<char>>| x.len() > 1 && x[0] == kv[0] implies (x == kv <==> x.drop_first() == kv.drop_first())
                                && (is_prefix(x.drop_first(), kv.drop_first()) ==> is_prefix(x, kv)) by {
                                if x.drop_first() == kv.drop_first() {
                                    assert(x =~= kv) by {
                                        assert forall|t: int| 0 <= t < x.len() implies x[t] == kv[t] by {
                                            if t > 0 {
                                                assert(x[t] == x.drop_first()[t - 1]);
                                                assert(kv[t] == kv.drop_first()[t - 1]);
                                            }
                                        }
                                    }
                                }
                                if is_prefix(x.drop_first(), kv.drop_first()) {
                                    assert(kv.subrange(0, x.len() as int) =~= x) by {
                                        assert forall|t: int| 0 <= t < x.len() implies kv[t] == x[t] by {
                                            if t > 0 {
                                                assert(x[t] == x.drop_first()[t - 1]);
                                                assert(kv[t] == kv.drop_first()[t - 1]);
                                                assert(kv.drop_first().subrange(0, x.drop_first().len() as int)[t - 1] == kv.drop_first()[t - 1]);
                                            }
                                        }
                                    }
                                }
                            }
                        }
                        (BoxedFs::Composite(c), r)
                    },
                    None => (BoxedFs::Composite(c), Err(Error::new(ErrorKind::NotFound, "no such mount"))),
                }
            },
            BoxedFs::Empty => (BoxedFs::Empty, Err(Error::new(ErrorKind::NotFound, "empty filesystem"))),
        }
    }

    /// Writes `data` as the whole content of the file at `k`, creating every
    /// missing directory above it first.
    pub fn write_file_creating_at(&mut self, k: &Vec<String>, data: Vec<u8>) -> (r: Result<(), Error>)
        requires
            old(self).wf(),
        ensures
            final(self).wf(),
            match old(self).deep_store_outcome(seg_views(k@)) {
                Some(e) => r is Err && r->Err_0.kind == e,
                None => r is Ok,
            },
            r is Err ==> forall|x: Seq<Seq<char>>| #[trigger] final(self).entry(x) == old(self).entry(x),
            r is Ok ==> final(self).entry(seg_views(k@)) == Some((FileType::File, data@)),
            forall|x: Seq<Seq<char>>| old(self).entry(x) is Some && x != seg_views(k@) ==> #[trigger] final(self).entry(x) == old(self).entry(x),
            forall|x: Seq<Seq<char>>| old(self).entry(x) is None && x != seg_views(k@) ==> (#[trigger] final(self).entry(x) is None
                || (is_prefix(x, seg_views(k@)) && final(self).entry(x)->Some_0.0 == FileType::Dir)),
            r is Err ==> *final(self) == *old(self),
    {
        match self.store_check(k, true) {
            Some(e) => {
                return Err(Error::new(e, "refused"));
            },
            None => {},
        }
        let mut taken = BoxedFs::Empty;
        std::mem::swap(self, &mut taken);
        let (back, r) = Self::deep_store_owned(taken, k, data);
        *self = back;
        r
    }
}

/// Nothing can be stored at the root of any filesystem, directories above it or not.
pub proof fn lemma_root_deep_store_refused(fs: BoxedFs)
    ensures
        fs.deep_store_outcome(Seq::empty()) is Some,
{
}

/// Computes the store outcome of a memory filesystem.
fn memory_store_check(m: &MemoryFS, k: &Vec<String>, deep: bool) -> (r: Option<ErrorKind>)
    requires
        m.wf(),
    ensures
        r == if deep {
            deep_store_error(m, seg_views(k@))
        } else {
            store_error(m, seg_views(k@))
        },
{
    let ghost kv = seg_views(k@);
    if k.len() == 0 {
        return Some(ErrorKind::Other);
    }
    let mut parent = k.clone();
    parent.pop();
    proof {
        assert(seg_views(parent@) =~= kv.drop_last());
    }
    if deep {
        if !m.can_create_dir_at(&parent) {
            return Some(ErrorKind::Other);
        }
    } else {
        match m.metadata_at(&parent) {
            Ok(md) => {
                if !md.is_dir() {
                    return Some(ErrorKind::NotFound);
                }
            },
            Err(_) => {
                return Some(ErrorKind::NotFound);
            },
        }
    }
    match m.metadata_at(k) {
        Ok(md) => {
            if md.is_dir() {
                Some(ErrorKind::Other)
            } else {
                None
            }
        },
        Err(_) => None,
    }
}

impl BoxedFs {
    /// Computes `store_outcome`, or `deep_store_outcome` where `deep`, without changing anything.
    pub fn store_check(&self, k: &Vec<String>, deep: bool) -> (r: Option<ErrorKind>)
        requires
            self.wf(),
        ensures
            r == if deep {
                self.deep_store_outcome(seg_views(k@))
            } else {
                self.store_outcome(seg_views(k@))
            },
        decreases self,
    {
        match self {
            BoxedFs::Memory(m) => memory_store_check(m, k, deep),
            BoxedFs::Overlay(_) => Some(ErrorKind::PermissionDenied),
            BoxedFs::Composite(c) => {
                if k.len() == 0 {
                    return Some(ErrorKind::PermissionDenied);
                }
                match c.find_mount(&k[0]) {
                    Some(i) => {
                        let rest = tail_segments(k);
                        c.mounts[i].fs.store_check(&rest, deep)
                    },
                    None => Some(ErrorKind::NotFound),
                }
            },
            BoxedFs::Empty => Some(ErrorKind::NotFound),
        }
    }

    /// Computes `mkdir_outcome` without changing anything.
    pub fn mkdir_check(&self, k: &Vec<String>) -> (r: Option<ErrorKind>)
        requires
            self.wf(),
        ensures
            r == self.mkdir_outcome(seg_views(k@)),
        decreases self,
    {
        match self {
            BoxedFs::Memory(m) => {
                if m.can_create_dir_at(k) {
                    None
                } else {
                    Some(ErrorKind::Other)
                }
            },
            BoxedFs::Overlay(_) => Some(ErrorKind::PermissionDenied),
            BoxedFs::Composite(c) => {
                if k.len() == 0 {
                    return Some(ErrorKind::PermissionDenied);
                }
                match c.find_mount(&k[0]) {
                    Some(i) => {
                        let rest = tail_segments(k);
                        c.mounts[i].fs.mkdir_check(&rest)
                    },
                    None => Some(ErrorKind::NotFound),
                }
            },
            BoxedFs::Empty => Some(ErrorKind::NotFound),
        }
    }

    /// Computes `remove_outcome` without changing anything.
    pub fn remove_check(&self, k: &Vec<String>) -> (r: Option<ErrorKind>)
        requires
            self.wf(),
        ensures
            r == self.remove_outcome(seg_views(k@)),
        decreases self,
    {
        match self {
            BoxedFs::Memory(m) => {
                if k.len() == 0 {
                    Some(ErrorKind::PermissionDenied)
                } else if m.exists_at(k) {
                    None
                } else {
                    Some(ErrorKind::NotFound)
                }
            },
            BoxedFs::Overlay(_) => Some(ErrorKind::PermissionDenied),
            BoxedFs::Composite(c) => {
                if k.len() == 0 {
                    return Some(ErrorKind::PermissionDenied);
                }
                match c.find_mount(&k[0]) {
                    Some(i) => {
                        if k.len() == 1 {
                            return Some(ErrorKind::PermissionDenied);
                        }
                        let rest = tail_segments(k);
                        c.mounts[i].fs.remove_check(&rest)
                    },
                    None => Some(ErrorKind::NotFound),
                }
            },
            BoxedFs::Empty => Some(ErrorKind::NotFound),
        }
    }
}

/// Where a file can be stored, nothing or a file is there now.
pub proof fn lemma_storable_not_dir(fs: BoxedFs, k: Seq<Seq<char>>)
    requires
        fs.store_outcome(k) is None,
    ensures
        fs.entry(k) is None || fs.entry(k)->Some_0.0 == FileType::File,
    decreases fs,
{
    match fs {
        BoxedFs::Composite(c) => {
            match position_of(mount_names(c.mounts@), k[0]) {
                Some(i) => {
                    if 0 <= i < c.mounts@.len() {
                        if k.len() == 1 {
                            lemma_root_store_refused(c.mounts@[i].fs);
                            assert(k.drop_first() =~= Seq::<Seq<char>>::empty());
                        } else {
                            lemma_storable_not_dir(c.mounts@[i].fs, k.drop_first());
                        }
                    }
                },
                None => {},
            }
        },
        _ => {},
    }
}

impl BoxedFs {
    /// Opens the file at `k`. Reading opens read it. Other opens are refused
    /// wherever storing a file at `k` would be; else a missing file is created
    /// where `o.create` asks (and refused with NotFound otherwise), emptied
    /// where `o.truncate` asks, and the cursor starts at its end where
    /// `o.append` asks.
    pub fn open_at(&mut self, k: &Vec<String>, o: OpenOptions) -> (r: Result<MemoryFile, Error>)
        requires
            old(self).wf(),
        ensures
            final(self).wf(),
            r is Err ==> *final(self) == *old(self),
            ({
                let kv = seg_views(k@);
                let e = old(self).entry(kv);
                if o.spec_non_mutating() {
                    &&& *final(self) == *old(self)
                    &&& match read_result(e) {
                        Ok(b) => r is Ok && r->Ok_0.data@ == b && r->Ok_0.pos == 0,
                        Err(x) => r is Err && r->Err_0.kind == x,
                    }
                } else {
                    match old(self).store_outcome(kv) {
                        Some(x) => r is Err && r->Err_0.kind == x,
                        None => if e is None && !o.create {
                            r is Err && r->Err_0.kind == ErrorKind::NotFound
                        } else {
                            r is Ok && {
                                let f = r->Ok_0;
                                &&& f.data@ == (if o.truncate || e is None { Seq::empty() } else { e->Some_0.1 })
                                &&& f.pos == (if o.append { f.data.len() as u64 } else { 0 })
                                &&& forall|x: Seq<Seq<char>>| #[trigger] final(self).entry(x) == if x == kv {
                                    Some((FileType::File, f.data@))
                                } else {
                                    old(self).entry(x)
                                }
                            }
                        },
                    }
                }
            }),
    {
        let ghost kv = seg_views(k@);
        if o.is_non_mutating() {
            return match self.read_at(k) {
                Ok(b) => Ok(MemoryFile::new(b)),
                Err(e) => Err(e),
            };
        }
        match self.store_check(k, false) {
            Some(e) => {
                return Err(Error::new(e, "refused"));
            },
            None => {},
        }
        let present = self.exists_at(k);
        if !present && !o.create {
            return Err(Error::new(ErrorKind::NotFound, "no such file"));
        }
        proof {
            lemma_storable_not_dir(*self, kv);
        }
        let fresh = o.truncate || !present;
        let bytes: Vec<u8> = if fresh {
            Vec::new()
        } else {
            match self.read_at(k) {
                Ok(b) => b,
                Err(_) => Vec::new(),
            }
        };
        if fresh {
            let _ = self.write_file_at(k, bytes.clone());
        }
        let pos: u64 = if o.append { bytes.len() as u64 } else { 0 };
        Ok(MemoryFile { data: bytes, pos })
    }
}

/// Nothing can be stored at the root of any filesystem.
pub proof fn lemma_root_store_refused(fs: BoxedFs)
    ensures
        fs.store_outcome(Seq::empty()) is Some,
{
}

/// A shared handle on a filesystem: the factory of its paths.
#[derive(Debug)]
pub struct BoxedFileSystem {
    root: Arc<BoxedFs>,
    base: Vec<String>,
}

/// A location in a filesystem, together with a shared handle on it.
#[derive(Debug)]
pub struct BoxedPath {
    fs: Arc<BoxedFs>,
    segs: Vec<String>,
}

impl BoxedFileSystem {
    /// The filesystem this handle shares.
    pub closed spec fn backend(&self) -> BoxedFs {
        *self.root
    }

    /// The location of the backend that this handle treats as its root.
    pub closed spec fn base(&self) -> Seq<Seq<char>> {
        seg_views(self.base@)
    }

    /// A handle rooted at the root of `fs`.
    pub fn new(fs: BoxedFs) -> (r: BoxedFileSystem)
        ensures
            r.backend() == fs,
            r.base() == Seq::<Seq<char>>::empty(),
    {
        let base: Vec<String> = Vec::new();
        proof {
            assert(seg_views(base@) =~= Seq::<Seq<char>>::empty());
        }
        BoxedFileSystem { root: Arc::new(fs), base }
    }

    /// The path that the text `p` denotes from this handle's root; fails
    /// where `p` climbs above that root.
    pub fn path(&self, p: &str) -> (r: Result<BoxedPath, Error>)
        ensures
            match resolved(Seq::empty(), p@) {
                Some(loc) => r is Ok && r->Ok_0.backend() == self.backend() && r->Ok_0.location() == self.base() + loc,
                None => r is Err && r->Err_0.kind == ErrorKind::InvalidInput,
            },
    {
        match parse_path(p) {
            Some(segs) => Ok(BoxedPath { fs: self.root.clone(), segs: append_segments(&self.base, &segs) }),
            None => Err(Error::new(ErrorKind::InvalidInput, "the path climbs above the root")),
        }
    }

    /// This handle's root path.
    pub fn root_path(&self) -> (r: BoxedPath)
        ensures
            r.backend() == self.backend(),
            r.location() == self.base(),
    {
        BoxedPath { fs: self.root.clone(), segs: self.base.clone() }
    }
}

impl BoxedPath {
    /// The filesystem this path belongs to.
    pub closed spec fn backend(&self) -> BoxedFs {
        *self.fs
    }

    /// The location this path denotes.
    pub closed spec fn location(&self) -> Seq<Seq<char>> {
        seg_views(self.segs@)
    }

    /// The entry this path denotes, if any.
    pub open spec fn entry(&self) -> Option<NodeView> {
        self.backend().entry(self.location())
    }

    /// The path at location `segs` of the filesystem behind `fs`.
    pub(crate) fn from_parts(fs: Arc<BoxedFs>, segs: Vec<String>) -> (r: BoxedPath)
        ensures
            r.backend() == *fs,
            r.location() == seg_views(segs@),
    {
        BoxedPath { fs, segs }
    }

    /// The shared handle on the filesystem.
    pub(crate) fn handle(&self) -> (r: &Arc<BoxedFs>)
        ensures
            **r == self.backend(),
    {
        &self.fs
    }

    /// The segments of the location.
    pub(crate) fn segments(&self) -> (r: &Vec<String>)
        ensures
            seg_views(r@) == self.location(),
    {
        &self.segs
    }

    /// The leaf name; the root has none.
    pub fn file_name(&self) -> (r: Option<String>)
        ensures
            match r {
                Some(n) => leaf_of(self.location()) == Some(n@),
                None => leaf_of(self.location()).is_none(),
            },
    {
        leaf_name(&self.segs)
    }

    /// What follows the last `.` of the leaf name.
    pub fn extension(&self) -> (r: Option<String>)
        ensures
            match leaf_of(self.location()) {
                Some(n) => match r {
                    Some(e) => extension_of(n) == Some(e@),
                    None => extension_of(n).is_none(),
                },
                None => r.is_none(),
            },
    {
        match leaf_name(&self.segs) {
            Some(n) => extension_of_name(n.as_str()),
            None => None,
        }
    }

    /// The path that `p` denotes relative to this one; fails where `p` climbs
    /// above the root.
    pub fn resolve(&self, p: &str) -> (r: Result<BoxedPath, Error>)
        ensures
            match resolved(self.location(), p@) {
                Some(loc) => r is Ok && r->Ok_0.backend() == self.backend() && r->Ok_0.location() == loc,
                None => r is Err && r->Err_0.kind == ErrorKind::InvalidInput,
            },
    {
        match resolve_segments(&self.segs, p) {
            Some(segs) => Ok(BoxedPath { fs: self.fs.clone(), segs }),
            None => Err(Error::new(ErrorKind::InvalidInput, "the path climbs above the root")),
        }
    }

    /// The enclosing path; the root has none.
    pub fn parent(&self) -> (r: Option<BoxedPath>)
        ensures
            match parent_of(self.location()) {
                Some(loc) => r is Some && r->Some_0.backend() == self.backend() && r->Some_0.location() == loc,
                None => r is None,
            },
    {
        match parent_segments(&self.segs) {
            Some(segs) => Some(BoxedPath { fs: self.fs.clone(), segs }),
            None => None,
        }
    }

    /// The string form: `/` for the root, else `/a/b`.
    pub fn to_string(&self) -> (r: String)
        ensures
            r@ == path_text(self.location()),
    {
        render(&self.segs)
    }

    /// Does this path denote an entry?
    pub fn is_present(&self) -> (r: bool)
        requires
            self.backend().wf(),
        ensures
            r == self.entry().is_some(),
    {
        self.fs.exists_at(&self.segs)
    }

    pub fn metadata(&self) -> (r: Result<Metadata, Error>)
        requires
            self.backend().wf(),
        ensures
            result_matches(r, metadata_result(self.entry())),
    {
        self.fs.metadata_at(&self.segs)
    }

    /// The whole content of the file this path denotes.
    pub fn read(&self) -> (r: Result<Vec<u8>, Error>)
        requires
            self.backend().wf(),
        ensures
            match read_result(self.entry()) {
                Ok(b) => r is Ok && r->Ok_0@ == b,
                Err(e) => r is Err && r->Err_0.kind == e,
            },
    {
        self.fs.read_at(&self.segs)
    }

    /// Opens the file. Reading opens (no create, append or truncate) read the
    /// entry. A shared handle cannot change the filesystem, so opens that
    /// would are refused: with the backend's own refusal where the backend
    /// would refuse them (an overlay or the composite root: PermissionDenied;
    /// an unmounted name: NotFound), and otherwise with Unsupported, the
    /// owner's `BoxedFs::open_at` being the way to make them.
    pub fn open(&self, o: OpenOptions) -> (r: Result<MemoryFile, Error>)
        requires
            self.backend().wf(),
        ensures
            o.spec_non_mutating() ==> match read_result(self.entry()) {
                Ok(b) => r is Ok && r->Ok_0.data@ == b && r->Ok_0.pos == 0,
                Err(e) => r is Err && r->Err_0.kind == e,
            },
            !o.spec_non_mutating() ==> r is Err && r->Err_0.kind == match self.backend().store_outcome(self.location()) {
                Some(e) => e,
                None => ErrorKind::Unsupported,
            },
            !o.spec_non_mutating() && self.backend() is Overlay ==> r is Err && r->Err_0.kind == ErrorKind::PermissionDenied,
    {
        if !o.is_non_mutating() {
            return match self.fs.store_check(&self.segs, false) {
                Some(e) => Err(Error::new(e, "refused")),
                None => Err(Error::new(ErrorKind::Unsupported, "a shared handle cannot change the filesystem")),
            };
        }
        match self.read() {
            Ok(b) => Ok(MemoryFile::new(b)),
            Err(e) => Err(e),
        }
    }

    /// The entries of the directory this path denotes, in listing order.
    pub fn read_dir(&self) -> (r: Result<Vec<BoxedPath>, Error>)
        requires
            self.backend().wf(),
        ensures
            match self.backend().listing(self.location()) {
                Ok(names) => r is Ok && r->Ok_0@.len() == names.len() && forall|i: int| 0 <= i < names.len() ==> {
                    &&& (#[trigger] r->Ok_0@[i]).backend() == self.backend()
                    &&& r->Ok_0@[i].location() == self.location().push(names[i])
                },
                Err(e) => r is Err && r->Err_0.kind == e,
            },
    {
        let names = match self.fs.list_at(&self.segs) {
            Ok(n) => n,
            Err(e) => {
                return Err(e);
            },
        };
        let ghost nv = seg_views(names@);
        let mut out: Vec<BoxedPath> = Vec::new();
        let mut i: usize = 0;
        while i < names.len()
            invariant
                nv == seg_views(names@),
                i <= names.len(),
                out@.len() == i,
                forall|j: int| 0 <= j < i ==> {
                    &&& (#[trigger] out@[j]).backend() == self.backend()
                    &&& out@[j].location() == self.location().push(nv[j])
                },
            decreases names.len() - i,
        {
            let segs = child_segments(&self.segs, &names[i]);
            out.push(BoxedPath { fs: self.fs.clone(), segs });
            i = i + 1;
        }
        Ok(out)
    }

    /// Another handle on the same location of the same filesystem; the
    /// filesystem itself is shared, not copied.
    pub fn box_clone(&self) -> (r: BoxedPath)
        ensures
            r.backend() == self.backend(),
            r.location() == self.location(),
    {
        BoxedPath { fs: self.fs.clone(), segs: self.segs.clone() }
    }

    /// A handle on the filesystem this path belongs to, rooted at this path:
    /// its paths lie below this one.
    pub fn into_fs(&self) -> (r: BoxedFileSystem)
        ensures
            r.backend() == self.backend(),
            r.base() == self.location(),
    {
        BoxedFileSystem { root: self.fs.clone(), base: self.segs.clone() }
    }
}

} // verus!
