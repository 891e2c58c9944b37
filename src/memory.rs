use vstd::prelude::*;

use crate::error::{Error, ErrorKind};
use crate::path::{parse_path, path_text, render, resolved, seg_views};
use crate::types::{FileType, Metadata, OpenOptions, SeekFrom};

verus! {

/// The bytes of one file.
#[derive(Debug, Clone)]
pub struct DataHandle {
    pub bytes: Vec<u8>,
}

impl DataHandle {
    pub fn new() -> (r: DataHandle)
        ensures
            r.bytes@ == Seq::<u8>::empty(),
    {
        DataHandle { bytes: Vec::new() }
    }

    pub fn with_data(data: Vec<u8>) -> (r: DataHandle)
        ensures
            r.bytes@ == data@,
    {
        DataHandle { bytes: data }
    }
}

/// One entry of an in-memory tree: a directory, or a file with its bytes.
#[derive(Debug)]
pub struct FsNode {
    pub kind: FileType,
    pub data: DataHandle,
}

/// What an entry is: its kind and, for a file, its bytes.
pub type NodeView = (FileType, Seq<u8>);

impl FsNode {
    pub open spec fn view(&self) -> NodeView {
        (self.kind, self.data.bytes@)
    }

    pub fn new_directory() -> (r: FsNode)
        ensures
            r.view() == (FileType::Dir, Seq::<u8>::empty()),
    {
        FsNode { kind: FileType::Dir, data: DataHandle::new() }
    }

    pub fn new_file() -> (r: FsNode)
        ensures
            r.view() == (FileType::File, Seq::<u8>::empty()),
    {
        FsNode { kind: FileType::File, data: DataHandle::new() }
    }

    /// A copy of this node.
    pub fn duplicate(&self) -> (r: FsNode)
        ensures
            r.view() == self.view(),
    {
        FsNode { kind: self.kind, data: DataHandle { bytes: self.data.bytes.clone() } }
    }

    pub fn metadata(&self) -> (r: Metadata)
        ensures
            r == node_metadata(self.view()),
    {
        match self.kind {
            FileType::Dir => Metadata::dir(),
            FileType::File => Metadata::file(self.data.bytes.len() as u64),
        }
    }
}

/// The metadata of an entry: a directory has size 0, a file its byte count.
pub open spec fn node_metadata(n: NodeView) -> Metadata {
    match n.0 {
        FileType::Dir => Metadata { size: 0, kind: FileType::Dir },
        FileType::File => Metadata { size: n.1.len() as u64, kind: FileType::File },
    }
}

/// What the root of every tree is.
pub open spec fn root_node() -> NodeView {
    (FileType::Dir, Seq::empty())
}

/// The locations that a sequence of segment vectors denotes.
pub open spec fn loc_views(keys: Seq<Vec<String>>) -> Seq<Seq<Seq<char>>> {
    keys.map_values(|v: Vec<String>| seg_views(v@))
}

/// What a sequence of nodes holds.
pub open spec fn node_seq_views(nodes: Seq<FsNode>) -> Seq<NodeView> {
    nodes.map_values(|n: FsNode| n.view())
}

/// The last index at which `k` occurs in `keys`.
pub open spec fn index_of(keys: Seq<Seq<Seq<char>>>, k: Seq<Seq<char>>) -> Option<int>
    decreases keys.len(),
{
    if keys.len() == 0 {
        None
    } else if keys.last() == k {
        Some(keys.len() - 1)
    } else {
        index_of(keys.drop_last(), k)
    }
}

/// `k` lies directly inside `d`.
pub open spec fn is_child(k: Seq<Seq<char>>, d: Seq<Seq<char>>) -> bool {
    k.len() == d.len() + 1 && k.subrange(0, d.len() as int) == d
}

/// The names of the keys directly inside `d`, in the order of `keys`.
pub open spec fn children(keys: Seq<Seq<Seq<char>>>, d: Seq<Seq<char>>) -> Seq<Seq<char>>
    decreases keys.len(),
{
    if keys.len() == 0 {
        Seq::empty()
    } else if is_child(keys.last(), d) {
        children(keys.drop_last(), d).push(keys.last().last())
    } else {
        children(keys.drop_last(), d)
    }
}

/// No key occurs twice.
pub open spec fn unique_keys(keys: Seq<Seq<Seq<char>>>) -> bool {
    forall|i: int| 0 <= i < keys.len() ==> index_of(#[trigger] keys.subrange(0, i), keys[i]).is_none()
}

/// An ephemeral in-memory file system: every entry under its full location,
/// in the order of creation. The root is implicit.
#[derive(Debug)]
pub struct MemoryFS {
    keys: Vec<Vec<String>>,
    nodes: Vec<FsNode>,
}

impl MemoryFS {
    pub closed spec fn key_views(&self) -> Seq<Seq<Seq<char>>> {
        loc_views(self.keys@)
    }

    pub closed spec fn node_views(&self) -> Seq<NodeView> {
        node_seq_views(self.nodes@)
    }

    pub closed spec fn wf(&self) -> bool {
        &&& self.keys.len() == self.nodes.len()
        &&& unique_keys(self.key_views())
    }

    /// The entry at location `k`, if there is one.
    pub open spec fn entry(&self, k: Seq<Seq<char>>) -> Option<NodeView> {
        if k.len() == 0 {
            Some(root_node())
        } else {
            lookup(self.key_views(), self.node_views(), k)
        }
    }

    /// The names inside the directory at `d`, in creation order; `None` where
    /// `d` is not a directory.
    pub open spec fn listing(&self, d: Seq<Seq<char>>) -> Option<Seq<Seq<char>>> {
        match self.entry(d) {
            Some(n) => if n.0 == FileType::Dir {
                Some(children(self.key_views(), d))
            } else {
                None
            },
            None => None,
        }
    }

    /// A well-formed tree stores each location once.
    pub proof fn lemma_wf_unique(&self)
        requires
            self.wf(),
        ensures
            unique_keys(self.key_views()),
    {
    }

    pub fn new() -> (r: MemoryFS)
        ensures
            r.wf(),
            forall|k: Seq<Seq<char>>| k.len() > 0 ==> r.entry(k).is_none(),
    {
        let r = MemoryFS { keys: Vec::new(), nodes: Vec::new() };
        proof {
            assert(r.key_views() =~= Seq::<Seq<Seq<char>>>::empty());
        }
        r
    }
}


/// The entry stored for `k` in parallel key and node sequences.
pub open spec fn lookup(keys: Seq<Seq<Seq<char>>>, nodes: Seq<NodeView>, k: Seq<Seq<char>>) -> Option<NodeView> {
    match index_of(keys, k) {
        Some(i) => Some(nodes[i]),
        None => None,
    }
}

/// `p` is `x` or lies above it.
pub open spec fn is_prefix(p: Seq<Seq<char>>, x: Seq<Seq<char>>) -> bool {
    p.len() <= x.len() && x.subrange(0, p.len() as int) == p
}

/// The outcome of reading the entry `e`: its bytes, or why it cannot be read.
pub open spec fn read_result(e: Option<NodeView>) -> Result<Seq<u8>, ErrorKind> {
    match e {
        Some(n) => if n.0 == FileType::File {
            Ok(n.1)
        } else {
            Err(ErrorKind::Other)
        },
        None => Err(ErrorKind::NotFound),
    }
}

/// The outcome of asking for the metadata of the entry `e`.
pub open spec fn metadata_result(e: Option<NodeView>) -> Result<Metadata, ErrorKind> {
    match e {
        Some(n) => Ok(node_metadata(n)),
        None => Err(ErrorKind::NotFound),
    }
}

/// `r` is `Ok` exactly where `spec` is, with the same value, and otherwise
/// fails with the kind that `spec` names.
pub open spec fn result_matches<T>(r: Result<T, Error>, spec: Result<T, ErrorKind>) -> bool {
    match spec {
        Ok(v) => r == Ok::<T, Error>(v),
        Err(k) => r is Err && r->Err_0.kind == k,
    }
}

pub proof fn lemma_index_of(keys: Seq<Seq<Seq<char>>>, k: Seq<Seq<char>>)
    ensures
        match index_of(keys, k) {
            Some(i) => 0 <= i < keys.len() && keys[i] == k,
            None => forall|j: int| 0 <= j < keys.len() ==> keys[j] != k,
        },
    decreases keys.len(),
{
    if keys.len() > 0 {
        lemma_index_of(keys.drop_last(), k);
        if keys.last() != k {
            assert forall|j: int| 0 <= j < keys.len() - 1 implies keys[j] == keys.drop_last()[j] by {}
        }
    }
}

pub proof fn lemma_index_of_push(keys: Seq<Seq<Seq<char>>>, k: Seq<Seq<char>>, x: Seq<Seq<char>>)
    ensures
        index_of(keys.push(k), x) == if x == k {
            Some(keys.len() as int)
        } else {
            index_of(keys, x)
        },
{
    assert(keys.push(k).drop_last() =~= keys);
}

pub proof fn lemma_children_push(keys: Seq<Seq<Seq<char>>>, k: Seq<Seq<char>>, d: Seq<Seq<char>>)
    ensures
        children(keys.push(k), d) == if is_child(k, d) {
            children(keys, d).push(k.last())
        } else {
            children(keys, d)
        },
{
    assert(keys.push(k).drop_last() =~= keys);
}

/// The two locations are equal.
pub fn same_location(a: &Vec<String>, b: &Vec<String>) -> (r: bool)
    ensures
        r == (seg_views(a@) == seg_views(b@)),
{
    if a.len() != b.len() {
        assert(seg_views(a@).len() != seg_views(b@).len());
        return false;
    }
    let mut i: usize = 0;
    while i < a.len()
        invariant
            a.len() == b.len(),
            i <= a.len(),
            forall|j: int| 0 <= j < i ==> a@[j]@ == b@[j]@,
        decreases a.len() - i,
    {
        if a[i] != b[i] {
            assert(seg_views(a@)[i as int] != seg_views(b@)[i as int]);
            return false;
        }
        i = i + 1;
    }
    assert(seg_views(a@) =~= seg_views(b@));
    true
}

/// `p` is `x` or lies above it.
pub fn location_is_prefix(p: &Vec<String>, x: &Vec<String>) -> (r: bool)
    ensures
        r == is_prefix(seg_views(p@), seg_views(x@)),
{
    if p.len() > x.len() {
        return false;
    }
    let mut i: usize = 0;
    while i < p.len()
        invariant
            p.len() <= x.len(),
            i <= p.len(),
            forall|j: int| 0 <= j < i ==> p@[j]@ == x@[j]@,
        decreases p.len() - i,
    {
        if p[i] != x[i] {
            assert(seg_views(x@).subrange(0, p.len() as int)[i as int] != seg_views(p@)[i as int]);
            return false;
        }
        i = i + 1;
    }
    assert(seg_views(x@).subrange(0, p.len() as int) =~= seg_views(p@));
    true
}

impl MemoryFS {
    /// The index at which location `k` is stored.
    fn find(&self, k: &Vec<String>) -> (r: Option<usize>)
        requires
            self.wf(),
        ensures
            match r {
                Some(i) => index_of(self.key_views(), seg_views(k@)) == Some(i as int) && i < self.nodes.len(),
                None => index_of(self.key_views(), seg_views(k@)).is_none(),
            },
    {
        let ghost kv = seg_views(k@);
        let mut i: usize = self.keys.len();
        proof {
            assert(self.key_views().subrange(0, i as int) =~= self.key_views());
        }
        while i > 0
            invariant
                self.wf(),
                kv == seg_views(k@),
                i <= self.keys.len(),
                index_of(self.key_views(), kv) == index_of(self.key_views().subrange(0, i as int), kv),
            decreases i,
        {
            proof {
                assert(self.key_views().subrange(0, i as int).drop_last() =~= self.key_views().subrange(0, i - 1));
                assert(self.key_views()[i - 1] == seg_views(self.keys@[i - 1]@));
            }
            let ghost sub = self.key_views().subrange(0, i as int);
            assert(sub.last() == seg_views(self.keys@[i - 1]@));
            if same_location(&self.keys[i - 1], k) {
                return Some(i - 1);
            }
            i = i - 1;
        }
        None
    }

    /// Is there an entry at `k`?
    pub fn exists_at(&self, k: &Vec<String>) -> (r: bool)
        requires
            self.wf(),
        ensures
            r == self.entry(seg_views(k@)).is_some(),
    {
        if k.len() == 0 {
            return true;
        }
        self.find(k).is_some()
    }

    /// The metadata of the entry at `k`.
    pub fn metadata_at(&self, k: &Vec<String>) -> (r: Result<Metadata, Error>)
        requires
            self.wf(),
        ensures
            result_matches(r, metadata_result(self.entry(seg_views(k@)))),
    {
        if k.len() == 0 {
            return Ok(Metadata::dir());
        }
        match self.find(k) {
            Some(i) => Ok(self.nodes[i].metadata()),
            None => Err(Error::new(ErrorKind::NotFound, "no such entry")),
        }
    }

    /// The bytes of the file at `k`.
    pub fn read_at(&self, k: &Vec<String>) -> (r: Result<Vec<u8>, Error>)
        requires
            self.wf(),
        ensures
            match read_result(self.entry(seg_views(k@))) {
                Ok(b) => r is Ok && r->Ok_0@ == b,
                Err(e) => r is Err && r->Err_0.kind == e,
            },
    {
        if k.len() == 0 {
            return Err(Error::new(ErrorKind::Other, "is a directory"));
        }
        match self.find(k) {
            Some(i) => match self.nodes[i].kind {
                FileType::File => Ok(self.nodes[i].data.bytes.clone()),
                FileType::Dir => Err(Error::new(ErrorKind::Other, "is a directory")),
            },
            None => Err(Error::new(ErrorKind::NotFound, "no such entry")),
        }
    }

    /// The names directly inside `d`, in creation order.
    pub fn children_of(&self, d: &Vec<String>) -> (r: Vec<String>)
        requires
            self.wf(),
        ensures
            seg_views(r@) == children(self.key_views(), seg_views(d@)),
    {
        let ghost dv = seg_views(d@);
        let mut out: Vec<String> = Vec::new();
        let mut i: usize = 0;
        proof {
            assert(self.key_views().subrange(0, 0) =~= Seq::<Seq<Seq<char>>>::empty());
            assert(seg_views(out@) =~= Seq::<Seq<char>>::empty());
        }
        while i < self.keys.len()
            invariant
                self.wf(),
                dv == seg_views(d@),
                i <= self.keys.len(),
                seg_views(out@) == children(self.key_views().subrange(0, i as int), dv),
            decreases self.keys.len() - i,
        {
            let key = &self.keys[i];
            proof {
                assert(self.key_views()[i as int] == seg_views(key@));
                assert(self.key_views().subrange(0, i + 1) =~= self.key_views().subrange(0, i as int).push(seg_views(key@)));
                lemma_children_push(self.key_views().subrange(0, i as int), seg_views(key@), dv);
            }
            if key.len() > 0 && key.len() - 1 == d.len() && location_is_prefix(d, key) {
                let ghost before = out@;
                out.push(key[key.len() - 1].clone());
                proof {
                    assert(seg_views(out@) =~= seg_views(before).push(seg_views(key@).last()));
                }
            }
            i = i + 1;
        }
        proof {
            assert(self.key_views().subrange(0, self.keys.len() as int) =~= self.key_views());
        }
        out
    }

    /// The names inside the directory at `d`.
    pub fn list_at(&self, d: &Vec<String>) -> (r: Result<Vec<String>, Error>)
        requires
            self.wf(),
        ensures
            match self.listing(seg_views(d@)) {
                Some(names) => r is Ok && seg_views(r->Ok_0@) == names,
                None => r is Err && r->Err_0.kind == (if self.entry(seg_views(d@)).is_none() {
                    ErrorKind::NotFound
                } else {
                    ErrorKind::Other
                }),
            },
    {
        if d.len() > 0 {
            match self.find(d) {
                Some(i) => match self.nodes[i].kind {
                    FileType::File => {
                        return Err(Error::new(ErrorKind::Other, "not a directory"));
                    },
                    FileType::Dir => {},
                },
                None => {
                    return Err(Error::new(ErrorKind::NotFound, "no such entry"));
                },
            }
        }
        Ok(self.children_of(d))
    }
}

pub proof fn lemma_unique_index(keys: Seq<Seq<Seq<char>>>, i: int)
    requires
        unique_keys(keys),
        0 <= i < keys.len(),
    ensures
        index_of(keys, keys[i]) == Some(i),
    decreases keys.len(),
{
    if i < keys.len() - 1 {
        let last = keys.len() - 1;
        assert(index_of(keys.subrange(0, last), keys[last]).is_none());
        lemma_index_of(keys.subrange(0, last), keys[last]);
        assert(keys.subrange(0, last)[i] == keys[i]);
        assert(keys.drop_last() =~= keys.subrange(0, last));
        assert forall|j: int| 0 <= j < keys.drop_last().len() implies index_of(
            #[trigger] keys.drop_last().subrange(0, j),
            keys.drop_last()[j],
        ).is_none() by {
            assert(keys.drop_last().subrange(0, j) =~= keys.subrange(0, j));
        }
        lemma_unique_index(keys.drop_last(), i);
    }
}

impl MemoryFS {
    /// Stores a new entry at a location that holds none yet.
    fn insert(&mut self, k: Vec<String>, n: FsNode)
        requires
            old(self).wf(),
            index_of(old(self).key_views(), seg_views(k@)).is_none(),
        ensures
            final(self).wf(),
            final(self).key_views() == old(self).key_views().push(seg_views(k@)),
            forall|x: Seq<Seq<char>>| #[trigger] final(self).entry(x) == if x == seg_views(k@) && x.len() > 0 {
                Some(n.view())
            } else {
                old(self).entry(x)
            },
    {
        let ghost kv = seg_views(k@);
        let ghost ok = old(self).key_views();
        let ghost on = old(self).node_views();
        let ghost nv = n.view();
        self.keys.push(k);
        self.nodes.push(n);
        proof {
            assert(self.key_views() =~= ok.push(kv));
            assert(self.node_views() =~= on.push(nv));
            assert forall|i: int| 0 <= i < self.key_views().len() implies index_of(
                #[trigger] self.key_views().subrange(0, i),
                self.key_views()[i],
            ).is_none() by {
                if i < ok.len() {
                    assert(self.key_views().subrange(0, i) =~= ok.subrange(0, i));
                } else {
                    assert(self.key_views().subrange(0, i) =~= ok);
                }
            }
            assert forall|x: Seq<Seq<char>>| #[trigger] self.entry(x) == if x == kv && x.len() > 0 {
                Some(nv)
            } else {
                old(self).entry(x)
            } by {
                lemma_index_of_push(ok, kv, x);
                lemma_index_of(ok, x);
            }
        }
    }

    /// Replaces the node stored at index `i`.
    fn replace_node(&mut self, i: usize, n: FsNode)
        requires
            old(self).wf(),
            i < old(self).nodes.len(),
        ensures
            final(self).wf(),
            final(self).key_views() == old(self).key_views(),
            forall|x: Seq<Seq<char>>| #[trigger] final(self).entry(x) == if x == old(self).key_views()[i as int] && x.len() > 0 {
                Some(n.view())
            } else {
                old(self).entry(x)
            },
    {
        let ghost ok = old(self).key_views();
        let ghost on = old(self).node_views();
        let ghost nv = n.view();
        self.nodes.set(i, n);
        proof {
            assert(self.key_views() =~= ok);
            assert(self.node_views() =~= on.update(i as int, nv));
            lemma_unique_index(ok, i as int);
            assert forall|x: Seq<Seq<char>>| #[trigger] self.entry(x) == if x == ok[i as int] && x.len() > 0 {
                Some(nv)
            } else {
                old(self).entry(x)
            } by {
                lemma_index_of(ok, x);
            }
        }
    }
}

/// No location strictly above or at `k` (other than the root) holds a file.
pub open spec fn no_file_on_the_way(fs: &MemoryFS, k: Seq<Seq<char>>) -> bool {
    forall|i: int| 1 <= i <= k.len() ==> match #[trigger] fs.entry(k.subrange(0, i)) {
        Some(n) => n.0 == FileType::Dir,
        None => true,
    }
}

/// The location that holds `k` is a directory.
pub open spec fn parent_is_dir(fs: &MemoryFS, k: Seq<Seq<char>>) -> bool {
    k.len() > 0 && match fs.entry(k.drop_last()) {
        Some(n) => n.0 == FileType::Dir,
        None => false,
    }
}

impl MemoryFS {
    /// Creates the directory at `k` and every missing directory above it.
    pub fn create_dir_at(&mut self, k: &Vec<String>) -> (r: Result<(), Error>)
        requires
            old(self).wf(),
        ensures
            final(self).wf(),
            r is Ok <==> no_file_on_the_way(old(self), seg_views(k@)),
            r is Err ==> r->Err_0.kind == ErrorKind::Other && *final(self) == *old(self),
            r is Ok ==> forall|i: int| 0 <= i <= k.len() ==> match #[trigger] final(self).entry(seg_views(k@).subrange(0, i)) {
                Some(n) => n.0 == FileType::Dir,
                None => false,
            },
            r is Ok ==> forall|x: Seq<Seq<char>>| old(self).entry(x) is Some ==> #[trigger] final(self).entry(x) == old(self).entry(x),
            r is Ok ==> forall|x: Seq<Seq<char>>| #[trigger] final(self).entry(x) is Some ==> old(self).entry(x) is Some || is_prefix(x, seg_views(k@)),
    {
        let ghost kv = seg_views(k@);
        // First make sure that nothing on the way is a file, so that a failure changes nothing.
        let mut cur: Vec<String> = Vec::new();
        let mut i: usize = 0;
        while i < k.len()
            invariant
                self.wf(),
                kv == seg_views(k@),
                i <= k.len(),
                seg_views(cur@) == kv.subrange(0, i as int),
                forall|j: int| 1 <= j <= i ==> match #[trigger] self.entry(kv.subrange(0, j)) {
                    Some(n) => n.0 == FileType::Dir,
                    None => true,
                },
            decreases k.len() - i,
        {
            let ghost before = cur@;
            cur.push(k[i].clone());
            proof {
                assert(seg_views(cur@) =~= seg_views(before).push(kv[i as int]));
                assert(seg_views(cur@) =~= kv.subrange(0, i + 1));
            }
            match self.find(&cur) {
                Some(idx) => {
                    match self.nodes[idx].kind {
                        FileType::File => {
                            proof {
                                assert(self.node_views()[idx as int] == self.nodes@[idx as int].view());
                                assert(self.entry(kv.subrange(0, i + 1)) == Some(self.node_views()[idx as int]));
                                assert(!(match self.entry(kv.subrange(0, i + 1)) {
                                    Some(n) => n.0 == FileType::Dir,
                                    None => true,
                                }));
                            }
                            return Err(Error::new(ErrorKind::Other, "a file is in the way"));
                        },
                        FileType::Dir => {
                            proof {
                                assert(self.node_views()[idx as int] == self.nodes@[idx as int].view());
                            }
                        },
                    }
                },
                None => {},
            }
            i = i + 1;
        }
        let ghost orig = *self;
        let mut cur: Vec<String> = Vec::new();
        let mut i: usize = 0;
        proof {
            assert(seg_views(cur@) =~= kv.subrange(0, 0));
        }
        while i < k.len()
            invariant
                self.wf(),
                orig.wf(),
                kv == seg_views(k@),
                i <= k.len(),
                seg_views(cur@) == kv.subrange(0, i as int),
                no_file_on_the_way(&orig, kv),
                forall|j: int| 0 <= j <= i ==> match #[trigger] self.entry(kv.subrange(0, j)) {
                    Some(n) => n.0 == FileType::Dir,
                    None => false,
                },
                forall|x: Seq<Seq<char>>| orig.entry(x) is Some ==> #[trigger] self.entry(x) == orig.entry(x),
                forall|x: Seq<Seq<char>>| #[trigger] self.entry(x) is Some ==> orig.entry(x) is Some || is_prefix(x, kv),
                forall|x: Seq<Seq<char>>| #[trigger] self.entry(x) is Some && orig.entry(x) is None ==> self.entry(x)->Some_0.0 == FileType::Dir,
            decreases k.len() - i,
        {
            let ghost before = cur@;
            cur.push(k[i].clone());
            proof {
                assert(seg_views(cur@) =~= seg_views(before).push(kv[i as int]));
                assert(seg_views(cur@) =~= kv.subrange(0, i + 1));
            }
            match self.find(&cur) {
                Some(idx) => {
                    proof {
                        assert(self.entry(kv.subrange(0, i + 1)) is Some);
                        if orig.entry(kv.subrange(0, i + 1)) is Some {
                            assert(1 <= i + 1 <= kv.len());
                        }
                    }
                },
                None => {
                    let ghost mid = *self;
                    self.insert(cur.clone(), FsNode::new_directory());
                    proof {
                        assert forall|x: Seq<Seq<char>>| #[trigger] self.entry(x) is Some implies orig.entry(x) is Some || is_prefix(x, kv) by {
                            if x == kv.subrange(0, i + 1) && x.len() > 0 {
                                assert(kv.subrange(0, x.len() as int) =~= x);
                            }
                        }
                    }
                },
            }
            i = i + 1;
        }
        proof {
            assert(kv.subrange(0, k.len() as int) =~= kv);
        }
        Ok(())
    }
}

pub proof fn lemma_lookup_push(keys: Seq<Seq<Seq<char>>>, nodes: Seq<NodeView>, k: Seq<Seq<char>>, n: NodeView, x: Seq<Seq<char>>)
    requires
        keys.len() == nodes.len(),
    ensures
        lookup(keys.push(k), nodes.push(n), x) == if x == k {
            Some(n)
        } else {
            lookup(keys, nodes, x)
        },
{
    lemma_index_of_push(keys, k, x);
    lemma_index_of(keys, x);
}

pub proof fn lemma_unique_push(keys: Seq<Seq<Seq<char>>>, k: Seq<Seq<char>>)
    requires
        unique_keys(keys),
        index_of(keys, k).is_none(),
    ensures
        unique_keys(keys.push(k)),
{
    assert forall|i: int| 0 <= i < keys.push(k).len() implies index_of(
        #[trigger] keys.push(k).subrange(0, i),
        keys.push(k)[i],
    ).is_none() by {
        if i < keys.len() {
            assert(keys.push(k).subrange(0, i) =~= keys.subrange(0, i));
        } else {
            assert(keys.push(k).subrange(0, i) =~= keys);
        }
    }
}

/// Why storing a file at `k` fails, if it does.
pub open spec fn store_error(fs: &MemoryFS, k: Seq<Seq<char>>) -> Option<ErrorKind> {
    if k.len() == 0 {
        Some(ErrorKind::Other)
    } else if !parent_is_dir(fs, k) {
        Some(ErrorKind::NotFound)
    } else if fs.entry(k) is Some && fs.entry(k)->Some_0.0 == FileType::Dir {
        Some(ErrorKind::Other)
    } else {
        None
    }
}

/// The bytes of the file at `k`, or none where there is no file.
pub open spec fn file_bytes(fs: &MemoryFS, k: Seq<Seq<char>>) -> Seq<u8> {
    match fs.entry(k) {
        Some(n) => if n.0 == FileType::File {
            n.1
        } else {
            Seq::empty()
        },
        None => Seq::empty(),
    }
}

impl MemoryFS {
    /// Stores `bytes` as the file at `k`, creating it or replacing its contents.
    fn store(&mut self, k: &Vec<String>, bytes: Vec<u8>) -> (r: Result<(), Error>)
        requires
            old(self).wf(),
        ensures
            final(self).wf(),
            match store_error(old(self), seg_views(k@)) {
                Some(e) => r is Err && r->Err_0.kind == e && *final(self) == *old(self),
                None => r is Ok && forall|x: Seq<Seq<char>>| #[trigger] final(self).entry(x) == if x == seg_views(k@) {
                    Some((FileType::File, bytes@))
                } else {
                    old(self).entry(x)
                },
            },
    {
        let ghost kv = seg_views(k@);
        if k.len() == 0 {
            return Err(Error::new(ErrorKind::Other, "the root is not a file"));
        }
        let mut parent = k.clone();
        parent.pop();
        proof {
            assert(seg_views(parent@) =~= kv.drop_last());
        }
        match self.metadata_at(&parent) {
            Ok(m) => {
                if !m.is_dir() {
                    return Err(Error::new(ErrorKind::NotFound, "the parent is not a directory"));
                }
            },
            Err(_) => {
                return Err(Error::new(ErrorKind::NotFound, "the parent does not exist"));
            },
        }
        let node = FsNode { kind: FileType::File, data: DataHandle::with_data(bytes) };
        match self.find(k) {
            Some(i) => {
                if self.nodes[i].kind == FileType::Dir {
                    proof {
                        assert(self.node_views()[i as int] == self.nodes@[i as int].view());
                    }
                    return Err(Error::new(ErrorKind::Other, "is a directory"));
                }
                proof {
                    lemma_index_of(self.key_views(), kv);
                }
                self.replace_node(i, node);
            },
            None => {
                self.insert(k.clone(), node);
            },
        }
        Ok(())
    }

    /// Writes `data` as the whole content of the file at `k`, creating it if needed.
    pub fn write_file_at(&mut self, k: &Vec<String>, data: Vec<u8>) -> (r: Result<(), Error>)
        requires
            old(self).wf(),
        ensures
            final(self).wf(),
            match store_error(old(self), seg_views(k@)) {
                Some(e) => r is Err && r->Err_0.kind == e && *final(self) == *old(self),
                None => r is Ok && forall|x: Seq<Seq<char>>| #[trigger] final(self).entry(x) == if x == seg_views(k@) {
                    Some((FileType::File, data@))
                } else {
                    old(self).entry(x)
                },
            },
    {
        self.store(k, data)
    }

    /// Adds `data` at the end of the file at `k`, creating it if needed.
    pub fn append_file_at(&mut self, k: &Vec<String>, data: &Vec<u8>) -> (r: Result<(), Error>)
        requires
            old(self).wf(),
        ensures
            final(self).wf(),
            match store_error(old(self), seg_views(k@)) {
                Some(e) => r is Err && r->Err_0.kind == e && *final(self) == *old(self),
                None => r is Ok && forall|x: Seq<Seq<char>>| #[trigger] final(self).entry(x) == if x == seg_views(k@) {
                    Some((FileType::File, file_bytes(old(self), x) + data@))
                } else {
                    old(self).entry(x)
                },
            },
    {
        let mut bytes: Vec<u8> = match self.read_at(k) {
            Ok(b) => b,
            Err(_) => Vec::new(),
        };
        let ghost start = bytes@;
        let mut j: usize = 0;
        while j < data.len()
            invariant
                j <= data.len(),
                bytes@ == start + data@.subrange(0, j as int),
            decreases data.len() - j,
        {
            bytes.push(data[j]);
            proof {
                assert(bytes@ =~= start + data@.subrange(0, j + 1));
            }
            j = j + 1;
        }
        proof {
            assert(data@.subrange(0, data.len() as int) =~= data@);
            assert(start == file_bytes(self, seg_views(k@)));
        }
        self.store(k, bytes)
    }

    /// Removes the entry at `k` together with everything beneath it.
    pub fn remove_at(&mut self, k: &Vec<String>) -> (r: Result<(), Error>)
        requires
            old(self).wf(),
        ensures
            final(self).wf(),
            seg_views(k@).len() == 0 ==> r is Err && r->Err_0.kind == ErrorKind::PermissionDenied,
            seg_views(k@).len() > 0 && old(self).entry(seg_views(k@)) is None ==> r is Err && r->Err_0.kind == ErrorKind::NotFound,
            r is Err ==> *final(self) == *old(self),
            r is Ok <==> seg_views(k@).len() > 0 && old(self).entry(seg_views(k@)) is Some,
            r is Ok ==> forall|x: Seq<Seq<char>>| #[trigger] final(self).entry(x) == if is_prefix(seg_views(k@), x) {
                None
            } else {
                old(self).entry(x)
            },
    {
        let ghost kv = seg_views(k@);
        if k.len() == 0 {
            return Err(Error::new(ErrorKind::PermissionDenied, "the root cannot be removed"));
        }
        if self.find(k).is_none() {
            return Err(Error::new(ErrorKind::NotFound, "no such entry"));
        }
        let ghost ok = self.key_views();
        let ghost on = self.node_views();
        let mut keys: Vec<Vec<String>> = Vec::new();
        let mut nodes: Vec<FsNode> = Vec::new();
        let mut i: usize = 0;
        proof {
            assert(loc_views(keys@) =~= Seq::<Seq<Seq<char>>>::empty());
            assert(ok.subrange(0, 0) =~= Seq::<Seq<Seq<char>>>::empty());
        }
        while i < self.keys.len()
            invariant
                self.wf(),
                ok == self.key_views(),
                on == self.node_views(),
                kv == seg_views(k@),
                kv.len() > 0,
                i <= self.keys.len(),
                keys.len() == nodes.len(),
                unique_keys(loc_views(keys@)),
                forall|x: Seq<Seq<char>>| #[trigger] lookup(
                    loc_views(keys@),
                    node_seq_views(nodes@),
                    x,
                ) == if is_prefix(kv, x) {
                    None
                } else {
                    lookup(ok.subrange(0, i as int), on.subrange(0, i as int), x)
                },
            decreases self.keys.len() - i,
        {
            let ghost nk = loc_views(keys@);
            let ghost nn = node_seq_views(nodes@);
            let key = &self.keys[i];
            proof {
                assert(ok[i as int] == seg_views(key@));
                assert(on[i as int] == self.nodes@[i as int].view());
                assert(ok.subrange(0, i + 1) =~= ok.subrange(0, i as int).push(ok[i as int]));
                assert(on.subrange(0, i + 1) =~= on.subrange(0, i as int).push(on[i as int]));
                assert forall|x: Seq<Seq<char>>| #[trigger] lookup(ok.subrange(0, i + 1), on.subrange(0, i + 1), x) == if x == ok[i as int] {
                    Some(on[i as int])
                } else {
                    lookup(ok.subrange(0, i as int), on.subrange(0, i as int), x)
                } by {
                    lemma_lookup_push(ok.subrange(0, i as int), on.subrange(0, i as int), ok[i as int], on[i as int], x);
                }
            }
            if !location_is_prefix(k, key) {
                let kc = key.clone();
                let nd = self.nodes[i].duplicate();
                proof {
                    assert(seg_views(kc@) == ok[i as int]);
                    assert(index_of(ok.subrange(0, i as int), ok[i as int]).is_none());
                    assert(lookup(nk, nn, ok[i as int]).is_none());
                    lemma_unique_push(nk, ok[i as int]);
                }
                keys.push(kc);
                nodes.push(nd);
                proof {
                    assert(loc_views(keys@) =~= nk.push(ok[i as int]));
                    assert(node_seq_views(nodes@) =~= nn.push(on[i as int]));
                    assert forall|x: Seq<Seq<char>>| #[trigger] lookup(
                        loc_views(keys@),
                        node_seq_views(nodes@),
                        x,
                    ) == if is_prefix(kv, x) {
                        None
                    } else {
                        lookup(ok.subrange(0, i + 1), on.subrange(0, i + 1), x)
                    } by {
                        lemma_lookup_push(nk, nn, ok[i as int], on[i as int], x);
                    }
                }
            }
            i = i + 1;
        }
        proof {
            assert(ok.subrange(0, ok.len() as int) =~= ok);
            assert(on.subrange(0, on.len() as int) =~= on);
        }
        let ghost before = *self;
        self.keys = keys;
        self.nodes = nodes;
        proof {
            assert forall|x: Seq<Seq<char>>| #[trigger] self.entry(x) == if is_prefix(kv, x) {
                None
            } else {
                before.entry(x)
            } by {
                if x.len() == 0 {
                    assert(!is_prefix(kv, x));
                }
            }
        }
        Ok(())
    }
}

impl MemoryFS {
    /// Does any location above or at `k` (other than the root) hold a file?
    /// Where none does, a directory can be created at `k`.
    pub fn can_create_dir_at(&self, k: &Vec<String>) -> (r: bool)
        requires
            self.wf(),
        ensures
            r == no_file_on_the_way(self, seg_views(k@)),
    {
        let ghost kv = seg_views(k@);
        let mut cur: Vec<String> = Vec::new();
        let mut i: usize = 0;
        while i < k.len()
            invariant
                self.wf(),
                kv == seg_views(k@),
                i <= k.len(),
                seg_views(cur@) == kv.subrange(0, i as int),
                forall|j: int| 1 <= j <= i ==> match #[trigger] self.entry(kv.subrange(0, j)) {
                    Some(n) => n.0 == FileType::Dir,
                    None => true,
                },
            decreases k.len() - i,
        {
            let ghost before = cur@;
            cur.push(k[i].clone());
            proof {
                assert(seg_views(cur@) =~= seg_views(before).push(kv[i as int]));
                assert(seg_views(cur@) =~= kv.subrange(0, i + 1));
            }
            match self.metadata_at(&cur) {
                Ok(m) => {
                    if m.is_file() {
                        assert(!(match self.entry(kv.subrange(0, i + 1)) {
                            Some(n) => n.0 == FileType::Dir,
                            None => true,
                        }));
                        return false;
                    }
                },
                Err(_) => {},
            }
            i = i + 1;
        }
        true
    }
}

/// Why storing a file at `k`, with every missing directory above it
/// created first, fails, if it does.
pub open spec fn deep_store_error(fs: &MemoryFS, k: Seq<Seq<char>>) -> Option<ErrorKind> {
    if k.len() == 0 {
        Some(ErrorKind::Other)
    } else if !no_file_on_the_way(fs, k.drop_last()) {
        Some(ErrorKind::Other)
    } else if fs.entry(k) is Some && fs.entry(k)->Some_0.0 == FileType::Dir {
        Some(ErrorKind::Other)
    } else {
        None
    }
}

proof fn lemma_prefix_of_parent(x: Seq<Seq<char>>, k: Seq<Seq<char>>)
    requires
        k.len() > 0,
        is_prefix(x, k.drop_last()),
    ensures
        is_prefix(x, k),
{
    assert(k.subrange(0, x.len() as int) =~= k.drop_last().subrange(0, x.len() as int));
}

impl MemoryFS {
    /// Stores `data` as the file at `k`, creating every missing directory above it.
    pub fn write_file_creating_at(&mut self, k: &Vec<String>, data: Vec<u8>) -> (r: Result<(), Error>)
        requires
            old(self).wf(),
        ensures
            final(self).wf(),
            match deep_store_error(old(self), seg_views(k@)) {
                Some(e) => r is Err && r->Err_0.kind == e && *final(self) == *old(self),
                None => r is Ok,
            },
            r is Ok ==> final(self).entry(seg_views(k@)) == Some((FileType::File, data@)),
            forall|x: Seq<Seq<char>>| old(self).entry(x) is Some && x != seg_views(k@) ==> #[trigger] final(self).entry(x) == old(self).entry(x),
            forall|x: Seq<Seq<char>>| old(self).entry(x) is None && x != seg_views(k@) ==> (#[trigger] final(self).entry(x) is None
                || (is_prefix(x, seg_views(k@)) && final(self).entry(x)->Some_0.0 == FileType::Dir)),
    {
        let ghost kv = seg_views(k@);
        if k.len() == 0 {
            return Err(Error::new(ErrorKind::Other, "the root is not a file"));
        }
        match self.metadata_at(k) {
            Ok(m) => {
                if m.is_dir() {
                    return Err(Error::new(ErrorKind::Other, "is a directory"));
                }
            },
            Err(_) => {},
        }
        let mut parent = k.clone();
        parent.pop();
        proof {
            assert(seg_views(parent@) =~= kv.drop_last());
        }
        let ghost orig = *self;
        match self.create_dir_at(&parent) {
            Ok(()) => {},
            Err(e) => {
                return Err(e);
            },
        }
        let ghost mid = *self;
        proof {
            let p = kv.drop_last();
            assert(p.subrange(0, p.len() as int) =~= p);
            assert(mid.entry(p.subrange(0, p.len() as int)) is Some);
            if orig.entry(kv) is None {
                assert(!is_prefix(kv, p));
            }
            assert(store_error(&mid, kv).is_none());
        }
        let r = self.store(k, data);
        proof {
            let p = kv.drop_last();
            assert forall|x: Seq<Seq<char>>| orig.entry(x) is None && x != kv implies (#[trigger] self.entry(x) is None
                || (is_prefix(x, kv) && self.entry(x)->Some_0.0 == FileType::Dir)) by {
                if mid.entry(x) is Some {
                    lemma_prefix_of_parent(x, kv);
                }
            }
        }
        r
    }
}

/// Why opening the file at `k` with `o` fails, if it does.
pub open spec fn open_error(fs: &MemoryFS, k: Seq<Seq<char>>, o: OpenOptions) -> Option<ErrorKind> {
    if k.len() == 0 {
        Some(ErrorKind::Other)
    } else if !parent_is_dir(fs, k) {
        Some(ErrorKind::NotFound)
    } else {
        match fs.entry(k) {
            Some(n) => if n.0 == FileType::Dir {
                Some(ErrorKind::Other)
            } else {
                None
            },
            None => if o.create {
                None
            } else {
                Some(ErrorKind::NotFound)
            },
        }
    }
}

/// A cursor over the bytes of one file, as they were when it was opened.
#[derive(Debug)]
pub struct MemoryFile {
    pub data: Vec<u8>,
    pub pos: u64,
}

impl MemoryFile {
    /// A cursor at the start of `data`.
    pub fn new(data: Vec<u8>) -> (r: MemoryFile)
        ensures
            r.data@ == data@,
            r.pos == 0,
    {
        MemoryFile { data, pos: 0 }
    }

    /// The number of bytes that a read of at most `max` bytes yields.
    pub open spec fn available(&self, max: nat) -> nat {
        if self.pos >= self.data.len() {
            0
        } else if self.data.len() - self.pos < max {
            (self.data.len() - self.pos) as nat
        } else {
            max
        }
    }

    /// Reads at most `max` bytes from the cursor and moves past them.
    pub fn read(&mut self, max: usize) -> (r: Vec<u8>)
        ensures
            final(self).data == old(self).data,
            old(self).pos < old(self).data.len() ==> r@ == old(self).data@.subrange(
                old(self).pos as int,
                old(self).pos + old(self).available(max as nat),
            ),
            old(self).pos >= old(self).data.len() ==> r@.len() == 0,
            final(self).pos == old(self).pos + old(self).available(max as nat),
    {
        let mut out: Vec<u8> = Vec::new();
        if self.pos >= self.data.len() as u64 {
            return out;
        }
        let start: usize = self.pos as usize;
        let rest: usize = self.data.len() - start;
        let n: usize = if rest < max { rest } else { max };
        let mut j: usize = 0;
        while j < n
            invariant
                start == self.pos,
                start + n <= self.data.len(),
                j <= n,
                out@ == self.data@.subrange(start as int, start + j),
            decreases n - j,
        {
            out.push(self.data[start + j]);
            proof {
                assert(out@ =~= self.data@.subrange(start as int, start + j + 1));
            }
            j = j + 1;
        }
        self.pos = (start + n) as u64;
        out
    }

    /// Reads everything from the cursor to the end.
    pub fn read_to_end(&mut self) -> (r: Vec<u8>)
        ensures
            final(self).data == old(self).data,
            old(self).pos <= old(self).data.len() ==> r@ == old(self).data@.subrange(old(self).pos as int, old(self).data.len() as int),
            old(self).pos > old(self).data.len() ==> r@.len() == 0,
    {
        let len = self.data.len();
        self.read(len)
    }

    /// Moves the cursor; a target before byte 0 is refused.
    pub fn seek(&mut self, to: SeekFrom) -> (r: Result<u64, Error>)
        ensures
            final(self).data == old(self).data,
            match to.target(old(self).pos, old(self).data.len() as u64) {
                Some(t) => r == Ok::<u64, Error>(t) && final(self).pos == t,
                None => r is Err && r->Err_0.kind == ErrorKind::InvalidInput && final(self).pos == old(self).pos,
            },
    {
        match to.resolve(self.pos, self.data.len() as u64) {
            Some(t) => {
                self.pos = t;
                Ok(t)
            },
            None => Err(Error::new(ErrorKind::InvalidInput, "invalid seek to a negative position")),
        }
    }
}

impl MemoryFS {
    /// Opens the file at `k`: creates it where `o.create` asks, empties it where
    /// `o.truncate` asks, and starts the cursor at its end where `o.append` asks.
    pub fn open_at(&mut self, k: &Vec<String>, o: OpenOptions) -> (r: Result<MemoryFile, Error>)
        requires
            old(self).wf(),
        ensures
            final(self).wf(),
            match open_error(old(self), seg_views(k@), o) {
                Some(e) => r is Err && r->Err_0.kind == e && *final(self) == *old(self),
                None => r is Ok && {
                    let f = r->Ok_0;
                    &&& f.data@ == (if o.truncate { Seq::empty() } else { file_bytes(old(self), seg_views(k@)) })
                    &&& f.pos == (if o.append { f.data.len() as u64 } else { 0 })
                    &&& forall|x: Seq<Seq<char>>| #[trigger] final(self).entry(x) == if x == seg_views(k@) {
                        Some((FileType::File, f.data@))
                    } else {
                        old(self).entry(x)
                    }
                },
            },
    {
        let ghost kv = seg_views(k@);
        if k.len() == 0 {
            return Err(Error::new(ErrorKind::Other, "the root is not a file"));
        }
        let mut parent = k.clone();
        parent.pop();
        proof {
            assert(seg_views(parent@) =~= kv.drop_last());
        }
        match self.metadata_at(&parent) {
            Ok(m) => {
                if !m.is_dir() {
                    return Err(Error::new(ErrorKind::NotFound, "the parent is not a directory"));
                }
            },
            Err(_) => {
                return Err(Error::new(ErrorKind::NotFound, "the parent does not exist"));
            },
        }
        let existing = match self.metadata_at(k) {
            Ok(m) => {
                if m.is_dir() {
                    return Err(Error::new(ErrorKind::Other, "is a directory"));
                }
                true
            },
            Err(_) => {
                if !o.create {
                    return Err(Error::new(ErrorKind::NotFound, "no such file"));
                }
                false
            },
        };
        let bytes: Vec<u8> = if o.truncate || !existing {
            Vec::new()
        } else {
            match self.read_at(k) {
                Ok(b) => b,
                Err(_) => Vec::new(),
            }
        };
        if o.truncate || !existing {
            // The checks above leave `store` nothing to refuse.
            let _ = self.store(k, bytes.clone());
        }
        let pos: u64 = if o.append { bytes.len() as u64 } else { 0 };
        Ok(MemoryFile { data: bytes, pos })
    }
}

/// The location that the text `p` denotes from the root.
fn locate(p: &str) -> (r: Result<Vec<String>, Error>)
    ensures
        match resolved(Seq::empty(), p@) {
            Some(k) => r is Ok && seg_views(r->Ok_0@) == k,
            None => r is Err && r->Err_0.kind == ErrorKind::InvalidInput,
        },
{
    match parse_path(p) {
        Some(k) => Ok(k),
        None => Err(Error::new(ErrorKind::InvalidInput, "the path climbs above the root")),
    }
}

impl MemoryFS {
    /// Is there an entry at the path `p`? A path that climbs above the root has none.
    pub fn is_present(&self, p: &str) -> (r: bool)
        requires
            self.wf(),
        ensures
            r == match resolved(Seq::empty(), p@) {
                Some(k) => self.entry(k).is_some(),
                None => false,
            },
    {
        match locate(p) {
            Ok(k) => self.exists_at(&k),
            Err(_) => false,
        }
    }

    pub fn metadata(&self, p: &str) -> (r: Result<Metadata, Error>)
        requires
            self.wf(),
        ensures
            match resolved(Seq::empty(), p@) {
                Some(k) => result_matches(r, metadata_result(self.entry(k))),
                None => r is Err && r->Err_0.kind == ErrorKind::InvalidInput,
            },
    {
        match locate(p) {
            Ok(k) => self.metadata_at(&k),
            Err(e) => Err(e),
        }
    }

    /// The whole content of the file at `p`.
    pub fn read(&self, p: &str) -> (r: Result<Vec<u8>, Error>)
        requires
            self.wf(),
        ensures
            match resolved(Seq::empty(), p@) {
                Some(k) => match read_result(self.entry(k)) {
                    Ok(b) => r is Ok && r->Ok_0@ == b,
                    Err(e) => r is Err && r->Err_0.kind == e,
                },
                None => r is Err && r->Err_0.kind == ErrorKind::InvalidInput,
            },
    {
        match locate(p) {
            Ok(k) => self.read_at(&k),
            Err(e) => Err(e),
        }
    }

    /// The names inside the directory at `p`.
    pub fn read_dir(&self, p: &str) -> (r: Result<Vec<String>, Error>)
        requires
            self.wf(),
        ensures
            match resolved(Seq::empty(), p@) {
                Some(k) => match self.listing(k) {
                    Some(names) => r is Ok && seg_views(r->Ok_0@) == names,
                    None => r is Err && r->Err_0.kind == (if self.entry(k).is_none() {
                        ErrorKind::NotFound
                    } else {
                        ErrorKind::Other
                    }),
                },
                None => r is Err && r->Err_0.kind == ErrorKind::InvalidInput,
            },
    {
        match locate(p) {
            Ok(k) => self.list_at(&k),
            Err(e) => Err(e),
        }
    }

    /// Creates the directory at `p` and every missing directory above it.
    pub fn create_dir(&mut self, p: &str) -> (r: Result<(), Error>)
        requires
            old(self).wf(),
        ensures
            final(self).wf(),
            r is Err ==> *final(self) == *old(self),
            match resolved(Seq::empty(), p@) {
                Some(k) => (r is Ok <==> no_file_on_the_way(old(self), k)) && (r is Ok ==> match final(self).entry(k) {
                    Some(n) => n.0 == FileType::Dir,
                    None => false,
                }) && (r is Ok ==> forall|x: Seq<Seq<char>>| old(self).entry(x) is Some ==> #[trigger] final(self).entry(x) == old(self).entry(x)),
                None => r is Err && r->Err_0.kind == ErrorKind::InvalidInput,
            },
    {
        match locate(p) {
            Ok(k) => {
                let r = self.create_dir_at(&k);
                proof {
                    if r is Ok {
                        assert(seg_views(k@).subrange(0, k.len() as int) =~= seg_views(k@));
                    }
                }
                r
            },
            Err(e) => Err(e),
        }
    }

    /// Writes `data` as the whole content of the file at `p`.
    pub fn write_file(&mut self, p: &str, data: Vec<u8>) -> (r: Result<(), Error>)
        requires
            old(self).wf(),
        ensures
            final(self).wf(),
            match resolved(Seq::empty(), p@) {
                Some(k) => match store_error(old(self), k) {
                    Some(e) => r is Err && r->Err_0.kind == e && *final(self) == *old(self),
                    None => r is Ok && forall|x: Seq<Seq<char>>| #[trigger] final(self).entry(x) == if x == k {
                        Some((FileType::File, data@))
                    } else {
                        old(self).entry(x)
                    },
                },
                None => r is Err && r->Err_0.kind == ErrorKind::InvalidInput && *final(self) == *old(self),
            },
    {
        match locate(p) {
            Ok(k) => self.write_file_at(&k, data),
            Err(e) => Err(e),
        }
    }

    /// Adds `data` at the end of the file at `p`, creating it if needed.
    pub fn append_file(&mut self, p: &str, data: &Vec<u8>) -> (r: Result<(), Error>)
        requires
            old(self).wf(),
        ensures
            final(self).wf(),
            match resolved(Seq::empty(), p@) {
                Some(k) => match store_error(old(self), k) {
                    Some(e) => r is Err && r->Err_0.kind == e && *final(self) == *old(self),
                    None => r is Ok && forall|x: Seq<Seq<char>>| #[trigger] final(self).entry(x) == if x == k {
                        Some((FileType::File, file_bytes(old(self), x) + data@))
                    } else {
                        old(self).entry(x)
                    },
                },
                None => r is Err && r->Err_0.kind == ErrorKind::InvalidInput && *final(self) == *old(self),
            },
    {
        match locate(p) {
            Ok(k) => self.append_file_at(&k, data),
            Err(e) => Err(e),
        }
    }

    /// Removes the entry at `p` and everything beneath it.
    pub fn remove(&mut self, p: &str) -> (r: Result<(), Error>)
        requires
            old(self).wf(),
        ensures
            final(self).wf(),
            r is Err ==> *final(self) == *old(self),
            match resolved(Seq::empty(), p@) {
                Some(k) => (r is Ok <==> k.len() > 0 && old(self).entry(k) is Some) && (r is Ok ==> forall|x: Seq<Seq<char>>| #[trigger] final(self).entry(x) == if is_prefix(k, x) {
                    None
                } else {
                    old(self).entry(x)
                }),
                None => r is Err && r->Err_0.kind == ErrorKind::InvalidInput,
            },
    {
        match locate(p) {
            Ok(k) => self.remove_at(&k),
            Err(e) => Err(e),
        }
    }

    /// Opens the file at `p` with the options `o` (see `open_at`).
    pub fn open(&mut self, p: &str, o: OpenOptions) -> (r: Result<MemoryFile, Error>)
        requires
            old(self).wf(),
        ensures
            final(self).wf(),
            match resolved(Seq::empty(), p@) {
                Some(k) => match open_error(old(self), k, o) {
                    Some(e) => r is Err && r->Err_0.kind == e && *final(self) == *old(self),
                    None => r is Ok && {
                        let f = r->Ok_0;
                        &&& f.data@ == (if o.truncate { Seq::empty() } else { file_bytes(old(self), k) })
                        &&& f.pos == (if o.append { f.data.len() as u64 } else { 0 })
                        &&& forall|x: Seq<Seq<char>>| #[trigger] final(self).entry(x) == if x == k {
                            Some((FileType::File, f.data@))
                        } else {
                            old(self).entry(x)
                        }
                    },
                },
                None => r is Err && r->Err_0.kind == ErrorKind::InvalidInput && *final(self) == *old(self),
            },
    {
        match locate(p) {
            Ok(k) => self.open_at(&k, o),
            Err(e) => Err(e),
        }
    }
}

/// A path of a memory filesystem, by its text.
#[derive(Debug, Clone)]
pub struct MemoryPath {
    pub path: String,
}

impl MemoryPath {
    pub fn new(path: String) -> (r: MemoryPath)
        ensures
            r.path@ == path@,
    {
        MemoryPath { path }
    }

    /// The enclosing path's text, if there is one, and the leaf name. The
    /// root has no parent and is its own leaf, `/`; a text that climbs above
    /// the root is returned whole, without parent.
    pub fn decompose_path(&self) -> (r: (Option<String>, String))
        ensures
            match resolved(Seq::empty(), self.path@) {
                Some(k) => if k.len() == 0 {
                    r.0 is None && r.1@ == seq!['/']
                } else {
                    r.0 is Some && r.0->Some_0@ == path_text(k.drop_last()) && r.1@ == k.last()
                },
                None => r.0 is None && r.1@ == self.path@,
            },
    {
        match parse_path(self.path.as_str()) {
            Some(k) => {
                if k.len() == 0 {
                    proof {
                        reveal_strlit("/");
                    }
                    (None, String::from_str("/"))
                } else {
                    let mut parent = k.clone();
                    let leaf = match parent.pop() {
                        Some(l) => l,
                        None => String::new(),
                    };
                    proof {
                        assert(seg_views(parent@) =~= seg_views(k@).drop_last());
                    }
                    (Some(render(&parent)), leaf)
                }
            },
            None => (None, self.path.clone()),
        }
    }
}

} // verus!
