use vstd::prelude::*;

use crate::boxed::BoxedFs;
use crate::path::{lemma_position_of, position_of, seg_views};

verus! {

/// One named member of a composite namespace.
#[derive(Debug)]
pub struct Mount {
    pub name: String,
    pub fs: BoxedFs,
}

/// Several filesystems under one namespace: `/<name>/<rest>` is `<rest>` in
/// the filesystem mounted as `<name>`.
#[derive(Debug)]
pub struct Composite {
    pub mounts: Vec<Mount>,
}

/// The names of a mount table, in order.
pub open spec fn mount_names(ms: Seq<Mount>) -> Seq<Seq<char>> {
    ms.map_values(|m: Mount| m.name@)
}

/// A mount name: not empty, and without `/`.
pub open spec fn valid_mount_name(n: Seq<char>) -> bool {
    n.len() > 0 && !n.contains('/')
}

/// Is `n` a usable mount name?
pub fn is_valid_mount_name(n: &str) -> (r: bool)
    ensures
        r == valid_mount_name(n@),
{
    let len = n.unicode_len();
    if len == 0 {
        return false;
    }
    let mut i: usize = 0;
    while i < len
        invariant
            len == n@.len(),
            i <= len,
            forall|j: int| 0 <= j < i ==> n@[j] != '/',
        decreases len - i,
    {
        if n.get_char(i) == '/' {
            assert(n@.contains('/'));
            return false;
        }
        i = i + 1;
    }
    true
}

impl Composite {
    pub fn new() -> (r: Composite)
        ensures
            r.mounts@.len() == 0,
    {
        Composite { mounts: Vec::new() }
    }

    /// The index of the mount called `name`.
    pub fn find_mount(&self, name: &String) -> (r: Option<usize>)
        ensures
            match r {
                Some(i) => position_of(mount_names(self.mounts@), name@) == Some(i as int) && i < self.mounts.len(),
                None => position_of(mount_names(self.mounts@), name@).is_none(),
            },
    {
        let ghost names = mount_names(self.mounts@);
        let mut i: usize = self.mounts.len();
        proof {
            assert(names.subrange(0, i as int) =~= names);
        }
        while i > 0
            invariant
                names == mount_names(self.mounts@),
                i <= self.mounts.len(),
                position_of(names, name@) == position_of(names.subrange(0, i as int), name@),
            decreases i,
        {
            proof {
                assert(names.subrange(0, i as int).drop_last() =~= names.subrange(0, i - 1));
                assert(names[i - 1] == self.mounts@[i - 1].name@);
            }
            if self.mounts[i - 1].name == *name {
                return Some(i - 1);
            }
            i = i - 1;
        }
        None
    }

    /// Registers `fs` under `name`; an earlier mount of that name is replaced
    /// in place.
    pub fn mount(self, name: &str, fs: BoxedFs) -> (r: Composite)
        requires
            valid_mount_name(name@),
        ensures
            position_of(mount_names(self.mounts@), name@) is Some ==> {
                let i = position_of(mount_names(self.mounts@), name@)->Some_0;
                r.mounts@ == self.mounts@.update(i, Mount { name: self.mounts@[i].name, fs })
            },
            position_of(mount_names(self.mounts@), name@) is None ==> r.mounts@.len() == self.mounts@.len() + 1
                && r.mounts@.subrange(0, self.mounts@.len() as int) == self.mounts@
                && r.mounts@.last().name@ == name@ && r.mounts@.last().fs == fs,
            mount_names(self.mounts@).no_duplicates() ==> mount_names(r.mounts@).no_duplicates(),
            (forall|i: int| 0 <= i < self.mounts@.len() ==> valid_mount_name(#[trigger] self.mounts@[i].name@)) ==> forall|i: int|
                0 <= i < r.mounts@.len() ==> valid_mount_name(#[trigger] r.mounts@[i].name@),
    {
        let owned = name.to_owned();
        let c = self;
        match c.find_mount(&owned) {
            Some(i) => {
                let mut mounts = c.mounts;
                let old_name = mounts[i].name.clone();
                proof {
                    lemma_position_of(mount_names(mounts@), name@);
                }
                let ghost before = mounts@;
                mounts.set(i, Mount { name: old_name, fs });
                proof {
                    assert(mount_names(mounts@) =~= mount_names(before));
                    assert forall|j: int| 0 <= j < mounts@.len() && j != i implies mounts@[j] == before[j] by {}
                }
                Composite { mounts }
            },
            None => {
                let mut mounts = c.mounts;
                mounts.push(Mount { name: owned, fs });
                proof {
                    assert(mounts@.subrange(0, mounts@.len() - 1) =~= c.mounts@);
                    let old_names = mount_names(c.mounts@);
                    let new_names = mount_names(mounts@);
                    lemma_position_of(old_names, name@);
                    assert(new_names =~= old_names.push(name@));
                    if old_names.no_duplicates() {
                        assert forall|a: int, b: int| 0 <= a < new_names.len() && 0 <= b < new_names.len() && a != b implies new_names[a] != new_names[b] by {
                            if a == old_names.len() {
                                assert(old_names[b] == new_names[b]);
                                if new_names[a] == new_names[b] {
                                    assert(old_names.contains(name@));
                                }
                            } else if b == old_names.len() {
                                assert(old_names[a] == new_names[a]);
                                if new_names[a] == new_names[b] {
                                    assert(old_names.contains(name@));
                                }
                            } else {
                                assert(old_names[a] == new_names[a] && old_names[b] == new_names[b]);
                            }
                        }
                    }
                    assert forall|j: int| 0 <= j < mounts@.len() - 1 implies mounts@[j] == c.mounts@[j] by {}
                }
                Composite { mounts }
            },
        }
    }

    /// The mount names, in order.
    pub fn names(&self) -> (r: Vec<String>)
        ensures
            seg_views(r@) == mount_names(self.mounts@),
    {
        let mut out: Vec<String> = Vec::new();
        let mut i: usize = 0;
        proof {
            assert(seg_views(out@) =~= mount_names(self.mounts@).subrange(0, 0));
        }
        while i < self.mounts.len()
            invariant
                i <= self.mounts.len(),
                seg_views(out@) == mount_names(self.mounts@).subrange(0, i as int),
            decreases self.mounts.len() - i,
        {
            let ghost before = out@;
            out.push(self.mounts[i].name.clone());
            proof {
                assert(seg_views(out@) =~= seg_views(before).push(self.mounts@[i as int].name@));
                assert(seg_views(out@) =~= mount_names(self.mounts@).subrange(0, i + 1));
            }
            i = i + 1;
        }
        proof {
            assert(mount_names(self.mounts@).subrange(0, self.mounts.len() as int) =~= mount_names(self.mounts@));
        }
        out
    }
}

} // verus!
