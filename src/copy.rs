use vstd::prelude::*;

use crate::boxed::BoxedFs;
use crate::composite::mount_names;
use crate::error::{CopyError, ErrorKind};
use crate::laws::lemma_children_member;
use crate::laws::lemma_listing_distinct;
use crate::memory::{children, is_prefix};
use crate::overlay::without;
use crate::path::{append_segments, child_segments, position_of, seg_views};
use crate::types::FileType;

verus! {

/// The greatest length of a location in `keys`.
pub open spec fn max_len(keys: Seq<Seq<Seq<char>>>) -> nat
    decreases keys.len(),
{
    if keys.len() == 0 {
        0
    } else {
        let m = max_len(keys.drop_last());
        if keys.last().len() > m {
            keys.last().len()
        } else {
            m
        }
    }
}

/// `n`, as a term to trigger on.
pub open spec fn bound(n: nat) -> nat {
    n
}

/// A bound on how deep a listable directory can lie in `fs`.
pub open spec fn depth(fs: BoxedFs) -> nat
    decreases fs,
{
    match fs {
        BoxedFs::Memory(m) => max_len(m.key_views()),
        BoxedFs::Overlay(b) => {
            let l = depth(b.lower);
            let u = depth(b.upper);
            if l > u {
                l
            } else {
                u
            }
        },
        BoxedFs::Composite(c) => 1 + choose|n: nat|
            #![trigger bound(n)]
            forall|i: int| 0 <= i < c.mounts@.len() ==> depth(#[trigger] c.mounts@[i].fs) <= bound(n),
        BoxedFs::Empty => 0,
    }
}

proof fn lemma_max_len(keys: Seq<Seq<Seq<char>>>, j: int)
    requires
        0 <= j < keys.len(),
    ensures
        keys[j].len() <= max_len(keys),
    decreases keys.len(),
{
    if j < keys.len() - 1 {
        assert(keys.drop_last()[j] == keys[j]);
        lemma_max_len(keys.drop_last(), j);
    }
}

proof fn lemma_mount_bound(fs: BoxedFs, k: int)
    requires
        fs is Composite,
        0 <= k <= fs->Composite_0.mounts@.len(),
    ensures
        exists|n: nat|
            #![trigger bound(n)]
            forall|i: int| 0 <= i < k ==> depth(#[trigger] fs->Composite_0.mounts@[i].fs) <= bound(n),
    decreases k,
{
    let ms = fs->Composite_0.mounts@;
    if k == 0 {
        assert(bound(0nat) == 0);
        assert(forall|i: int| 0 <= i < 0 ==> depth(#[trigger] ms[i].fs) <= bound(0nat));
    } else {
        lemma_mount_bound(fs, k - 1);
        let n0 = choose|n: nat|
            #![trigger bound(n)]
            forall|i: int| 0 <= i < k - 1 ==> depth(#[trigger] ms[i].fs) <= bound(n);
        let d = depth(ms[k - 1].fs);
        let n1: nat = if d > n0 { d } else { n0 };
        assert(bound(n1) == n1 && bound(n0) == n0);
        assert(forall|i: int| 0 <= i < k ==> depth(#[trigger] ms[i].fs) <= bound(n1));
    }
}

proof fn lemma_without_len(l: Seq<Seq<char>>, u: Seq<Seq<char>>)
    ensures
        without(l, u).len() <= l.len(),
    decreases l.len(),
{
    if l.len() > 0 {
        lemma_without_len(l.drop_last(), u);
    }
}

/// Only a directory that lies less deep than `depth(fs)` lists anything.
pub proof fn lemma_depth_bounds_listing(fs: BoxedFs, d: Seq<Seq<char>>)
    requires
        fs.listing(d) is Ok,
        fs.listing(d)->Ok_0.len() > 0,
    ensures
        d.len() < depth(fs),
    decreases fs,
{
    match fs {
        BoxedFs::Memory(m) => {
            let names = children(m.key_views(), d);
            assert(names.contains(names[0]));
            lemma_children_member(m.key_views(), d, names[0]);
            let j = choose|j: int| 0 <= j < m.key_views().len() && m.key_views()[j] == d.push(names[0]);
            lemma_max_len(m.key_views(), j);
        },
        BoxedFs::Overlay(b) => {
            match (b.upper.listing(d), b.lower.listing(d)) {
                (Ok(u), Ok(l)) => {
                    if u.len() > 0 {
                        lemma_depth_bounds_listing(b.upper, d);
                    } else {
                        lemma_without_len(l, u);
                        lemma_depth_bounds_listing(b.lower, d);
                    }
                },
                (Ok(u), Err(_)) => {
                    lemma_depth_bounds_listing(b.upper, d);
                },
                (Err(_), Ok(l)) => {
                    lemma_depth_bounds_listing(b.lower, d);
                },
                (Err(_), Err(_)) => {},
            }
        },
        BoxedFs::Composite(c) => {
            if d.len() > 0 {
                match position_of(mount_names(c.mounts@), d[0]) {
                    Some(i) => {
                        if 0 <= i < c.mounts@.len() {
                            lemma_depth_bounds_listing(c.mounts@[i].fs, d.drop_first());
                            lemma_mount_bound(fs, c.mounts@.len() as int);
                            let n = choose|n: nat|
                                #![trigger bound(n)]
                                forall|j: int| 0 <= j < c.mounts@.len() ==> depth(#[trigger] c.mounts@[j].fs) <= bound(n);
                            assert(depth(c.mounts@[i].fs) <= n);
                        }
                    },
                    None => {},
                }
            }
        },
        BoxedFs::Empty => {},
    }
}

/// `x` is `d`, or is found by walking down from the directory `d` through
/// directory entries and listings.
pub open spec fn below(fs: BoxedFs, d: Seq<Seq<char>>, x: Seq<Seq<char>>) -> bool
    decreases x.len() - d.len(),
{
    if !is_prefix(d, x) {
        false
    } else if x.len() == d.len() {
        true
    } else if fs.entry(d) is Some && fs.entry(d)->Some_0.0 == FileType::Dir {
        match fs.listing(d) {
            Ok(names) => names.contains(x[d.len() as int]) && below(fs, d.push(x[d.len() as int]), x),
            Err(_) => false,
        }
    } else {
        false
    }
}

/// `x` holds a file in `fs`.
pub open spec fn is_file_at(fs: BoxedFs, x: Seq<Seq<char>>) -> bool {
    fs.entry(x) is Some && fs.entry(x)->Some_0.0 == FileType::File
}

/// The root of a filesystem is never a file.
pub proof fn lemma_root_not_file(fs: BoxedFs)
    ensures
        !is_file_at(fs, Seq::empty()),
    decreases fs,
{
    match fs {
        BoxedFs::Overlay(b) => {
            lemma_root_not_file(b.upper);
            lemma_root_not_file(b.lower);
        },
        _ => {},
    }
}

/// Entries of `dest` that existed and changed lie strictly below `to`, at or under `t`.
pub open spec fn changed_only_under(before: BoxedFs, after: BoxedFs, to: Seq<Seq<char>>, t: Seq<Seq<char>>) -> bool {
    forall|y: Seq<Seq<char>>| before.entry(y) is Some && #[trigger] after.entry(y) != before.entry(y) ==> is_prefix(t, y) && y.len() > to.len()
}

/// Every file that `from` reaches in `src` is at `to` followed by its location in `dest`.
pub open spec fn copied_below(src: BoxedFs, from: Seq<Seq<char>>, dest: BoxedFs, to: Seq<Seq<char>>) -> bool {
    forall|x: Seq<Seq<char>>| below(src, from, x) && is_file_at(src, x) ==> #[trigger] dest.entry(to + x) == Some((FileType::File, src.entry(x)->Some_0.1))
}

/// Copies what `from` denotes in `src` into `dest`, as a copy of a tree is
/// done here: a file onto a file replaces its content; a file onto a
/// directory `to` lands at `to` followed by the file's own location, with the
/// missing directories above it created; a directory onto a directory copies
/// each of its entries onto `to` in turn, so that every file below it lands at
/// `to` followed by its location. A directory cannot be copied onto a file.
pub fn copy(src: &BoxedFs, from: &Vec<String>, dest: &mut BoxedFs, to: &Vec<String>) -> (r: Result<(), CopyError>)
    requires
        src.wf(),
        old(dest).wf(),
    ensures
        final(dest).wf(),
        ({
            let s = src.entry(seg_views(from@));
            let d = old(dest).entry(seg_views(to@));
            let t = seg_views(to@) + seg_views(from@);
            if s is None {
                (r matches Err(CopyError::Io(e)) && e.kind == ErrorKind::NotFound) && *final(dest) == *old(dest)
            } else if d is None {
                (r matches Err(CopyError::Io(e)) && e.kind == ErrorKind::NotFound) && *final(dest) == *old(dest)
            } else if s->Some_0.0 == FileType::Dir && d->Some_0.0 == FileType::File {
                (r matches Err(CopyError::InvalidPath)) && *final(dest) == *old(dest)
            } else if s->Some_0.0 == FileType::File && d->Some_0.0 == FileType::File {
                &&& (match old(dest).store_outcome(seg_views(to@)) {
                    Some(k) => (r matches Err(CopyError::Io(e)) && e.kind == k),
                    None => r is Ok,
                })
                &&& forall|x: Seq<Seq<char>>| #[trigger] final(dest).entry(x) == if r is Ok && x == seg_views(to@) {
                    Some((FileType::File, s->Some_0.1))
                } else {
                    old(dest).entry(x)
                }
            } else if s->Some_0.0 == FileType::File {
                &&& (match old(dest).deep_store_outcome(t) {
                    Some(k) => (r matches Err(CopyError::Io(e)) && e.kind == k),
                    None => r is Ok,
                })
                &&& r is Ok ==> final(dest).entry(t) == Some((FileType::File, s->Some_0.1))
                &&& r is Err ==> forall|x: Seq<Seq<char>>| #[trigger] final(dest).entry(x) == old(dest).entry(x)
                &&& forall|x: Seq<Seq<char>>| old(dest).entry(x) is None && x != t ==> (#[trigger] final(dest).entry(x) is None
                    || (is_prefix(x, t) && final(dest).entry(x)->Some_0.0 == FileType::Dir))
            } else {
                true
            }
        }),
        old(dest).entry(seg_views(to@)) is Some && old(dest).entry(seg_views(to@))->Some_0.0 == FileType::Dir ==> {
            &&& changed_only_under(*old(dest), *final(dest), seg_views(to@), seg_views(to@) + seg_views(from@))
            &&& (r is Ok ==> copied_below(*src, seg_views(from@), *final(dest), seg_views(to@)))
        },
    decreases depth(*src) - from.len(),
{
    let ghost fv = seg_views(from@);
    let ghost tv = seg_views(to@);
    let s_meta = match src.metadata_at(from) {
        Ok(m) => m,
        Err(e) => {
            return Err(CopyError::Io(e));
        },
    };
    let d_meta = match dest.metadata_at(to) {
        Ok(m) => m,
        Err(e) => {
            return Err(CopyError::Io(e));
        },
    };
    if s_meta.is_dir() && d_meta.is_file() {
        return Err(CopyError::InvalidPath);
    }
    if s_meta.is_file() {
        let bytes = match src.read_at(from) {
            Ok(b) => b,
            Err(e) => {
                return Err(CopyError::Io(e));
            },
        };
        if d_meta.is_file() {
            return match dest.write_file_at(to, bytes) {
                Ok(()) => Ok(()),
                Err(e) => Err(CopyError::Io(e)),
            };
        }
        let target = append_segments(to, from);
        proof {
            lemma_root_not_file(*src);
            if fv.len() == 0 {
                assert(fv =~= Seq::<Seq<char>>::empty());
            }
            assert((tv + fv).subrange(0, (tv + fv).len() as int) =~= tv + fv);
            assert forall|x: Seq<Seq<char>>| below(*src, fv, x) implies x == fv by {
                if x.len() == fv.len() {
                    assert(x =~= x.subrange(0, fv.len() as int));
                }
            }
        }
        return match dest.write_file_creating_at(&target, bytes) {
            Ok(()) => Ok(()),
            Err(e) => Err(CopyError::Io(e)),
        };
    }
    let names = match src.list_at(from) {
        Ok(n) => n,
        Err(e) => {
            return Err(CopyError::Io(e));
        },
    };
    let ghost nv = seg_views(names@);
    proof {
        if names.len() > 0 {
            lemma_depth_bounds_listing(*src, fv);
        }
        lemma_listing_distinct(*src, fv);
    }
    let ghost orig = *dest;
    let mut i: usize = 0;
    while i < names.len()
        invariant
            src.wf(),
            dest.wf(),
            fv == seg_views(from@),
            tv == seg_views(to@),
            nv == seg_views(names@),
            src.listing(fv) == Ok::<Seq<Seq<char>>, ErrorKind>(nv),
            nv.no_duplicates(),
            i <= names.len(),
            names.len() > 0 ==> from.len() < depth(*src),
            src.entry(fv) is Some && src.entry(fv)->Some_0.0 == FileType::Dir,
            orig == *old(dest),
            orig.entry(tv) is Some && orig.entry(tv)->Some_0.0 == FileType::Dir,
            dest.entry(tv) == orig.entry(tv),
            forall|y: Seq<Seq<char>>| orig.entry(y) is Some && #[trigger] dest.entry(y) != orig.entry(y) ==> is_prefix(tv + fv, y)
                && y.len() > (tv + fv).len() && exists|j: int| 0 <= j < i && y[(tv + fv).len() as int] == nv[j],
            forall|j: int, x: Seq<Seq<char>>| 0 <= j < i && below(*src, #[trigger] fv.push(nv[j]), x) && is_file_at(*src, x) ==> #[trigger] dest.entry(tv + x)
                == Some((FileType::File, src.entry(x)->Some_0.1)),
        decreases names.len() - i,
    {
        let child = child_segments(from, &names[i]);
        assert(seg_views(child@).len() == child@.len());
        assert(child.len() == from.len() + 1);
        let ghost pre = *dest;
        let ghost c = fv.push(nv[i as int]);
        let r = copy(src, &child, dest, to);
        proof {
            assert(seg_views(child@) == c);
            assert(tv + c =~= (tv + fv).push(nv[i as int]));
        }
        match r {
            Ok(()) => {},
            Err(e) => {
                proof {
                    assert forall|y: Seq<Seq<char>>| orig.entry(y) is Some && #[trigger] dest.entry(y) != orig.entry(y) implies is_prefix(tv + fv, y)
                        && y.len() > (tv + fv).len() && exists|j: int| 0 <= j < i + 1 && y[(tv + fv).len() as int] == nv[j] by {
                        if pre.entry(y) == orig.entry(y) {
                            assert(is_prefix(tv + c, y));
                            assert(y.subrange(0, (tv + c).len() as int) =~= tv + c);
                            assert(y.subrange(0, (tv + fv).len() as int) =~= tv + fv);
                            assert(y[(tv + fv).len() as int] == y.subrange(0, (tv + c).len() as int)[(tv + fv).len() as int]);
                            assert((tv + c)[(tv + fv).len() as int] == nv[i as int]);
                            assert(y[(tv + fv).len() as int] == nv[i as int]);
                        } else {
                            let j = choose|j: int| 0 <= j < i && y[(tv + fv).len() as int] == nv[j];
                            assert(0 <= j < i + 1 && y[(tv + fv).len() as int] == nv[j]);
                        }
                    }
                }
                return Err(e);
            },
        }
        proof {
            assert forall|y: Seq<Seq<char>>| orig.entry(y) is Some && #[trigger] dest.entry(y) != orig.entry(y) implies is_prefix(tv + fv, y)
                && y.len() > (tv + fv).len() && exists|j: int| 0 <= j < i + 1 && y[(tv + fv).len() as int] == nv[j] by {
                if pre.entry(y) == orig.entry(y) {
                    assert(is_prefix(tv + c, y));
                    assert(y.subrange(0, (tv + c).len() as int) =~= tv + c);
                    assert(y.subrange(0, (tv + fv).len() as int) =~= tv + fv);
                    assert(y[(tv + fv).len() as int] == y.subrange(0, (tv + c).len() as int)[(tv + fv).len() as int]);
                    assert((tv + c)[(tv + fv).len() as int] == nv[i as int]);
                    assert(y[(tv + fv).len() as int] == nv[i as int]);
                } else {
                    let j = choose|j: int| 0 <= j < i && y[(tv + fv).len() as int] == nv[j];
                    assert(0 <= j < i + 1 && y[(tv + fv).len() as int] == nv[j]);
                }
            }
            assert forall|j: int, x: Seq<Seq<char>>| 0 <= j < i + 1 && below(*src, #[trigger] fv.push(nv[j]), x) && is_file_at(*src, x) implies #[trigger] dest.entry(tv + x)
                == Some((FileType::File, src.entry(x)->Some_0.1)) by {
                if j < i {
                    let y = tv + x;
                    assert(pre.entry(y) is Some);
                    if dest.entry(y) != pre.entry(y) {
                        assert(is_prefix(tv + c, y));
                        assert(is_prefix(fv.push(nv[j]), x));
                        assert(x.subrange(0, fv.len() as int + 1) == fv.push(nv[j]));
                        assert(x[fv.len() as int] == x.subrange(0, fv.len() as int + 1)[fv.len() as int]);
                        assert(y[(tv + fv).len() as int] == x[fv.len() as int]);
                        assert(y.subrange(0, (tv + c).len() as int) =~= tv + c);
                        assert(y[(tv + fv).len() as int] == y.subrange(0, (tv + c).len() as int)[(tv + fv).len() as int]);
                        assert(nv[j] == nv[i as int]);
                    }
                }
            }
        }
        i = i + 1;
    }
    proof {
        assert forall|x: Seq<Seq<char>>| below(*src, fv, x) && is_file_at(*src, x) implies #[trigger] dest.entry(tv + x)
            == Some((FileType::File, src.entry(x)->Some_0.1)) by {
            if x.len() == fv.len() {
                assert(x =~= x.subrange(0, fv.len() as int));
            } else {
                let n = x[fv.len() as int];
                let j = choose|j: int| 0 <= j < nv.len() && nv[j] == n;
                assert(below(*src, fv.push(nv[j]), x));
            }
        }
    }
    Ok(())
}

} // verus!
