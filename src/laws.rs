use vstd::prelude::*;

use crate::boxed::{BoxedFs, BoxedPath};
use crate::composite::mount_names;
use crate::memory::{
    children, index_of, is_child, lemma_index_of, metadata_result, read_result, root_node, unique_keys, MemoryFS,
};
use crate::overlay::{lemma_merge_names, merge_names};
use crate::path::{lemma_resolve_under_name, position_of, resolved, valid_segment};
use crate::types::FileType;

verus! {

/// An overlay has an entry at a location exactly where one of its sides has.
pub proof fn lemma_overlay_exists(fs: BoxedFs, k: Seq<Seq<char>>)
    requires
        fs is Overlay,
    ensures
        fs.entry(k).is_some() == (fs->Overlay_0.lower.entry(k).is_some() || fs->Overlay_0.upper.entry(k).is_some()),
{
}

/// Where both sides hold a file, reading through the overlay reads the upper one.
pub proof fn lemma_overlay_shadowing(fs: BoxedFs, k: Seq<Seq<char>>)
    requires
        fs is Overlay,
        fs->Overlay_0.upper.entry(k) is Some,
        fs->Overlay_0.upper.entry(k)->Some_0.0 == FileType::File,
        fs->Overlay_0.lower.entry(k) is Some,
        fs->Overlay_0.lower.entry(k)->Some_0.0 == FileType::File,
    ensures
        read_result(fs.entry(k)) == read_result(fs->Overlay_0.upper.entry(k)),
{
}

proof fn lemma_unique_drop_last(keys: Seq<Seq<Seq<char>>>)
    requires
        unique_keys(keys),
        keys.len() > 0,
    ensures
        unique_keys(keys.drop_last()),
{
    assert forall|j: int| 0 <= j < keys.drop_last().len() implies index_of(
        #[trigger] keys.drop_last().subrange(0, j),
        keys.drop_last()[j],
    ).is_none() by {
        assert(keys.drop_last().subrange(0, j) =~= keys.subrange(0, j));
    }
}

pub proof fn lemma_children_member(keys: Seq<Seq<Seq<char>>>, d: Seq<Seq<char>>, n: Seq<char>)
    requires
        children(keys, d).contains(n),
    ensures
        keys.contains(d.push(n)),
    decreases keys.len(),
{
    if keys.len() > 0 {
        let k = keys.last();
        let p = keys.drop_last();
        if is_child(k, d) && k.last() == n {
            assert(k =~= d.push(n));
            assert(keys[keys.len() - 1] == k);
        } else {
            if is_child(k, d) {
                let c = children(p, d);
                let i = choose|i: int| 0 <= i < c.push(k.last()).len() && c.push(k.last())[i] == n;
                assert(c[i] == n);
            }
            lemma_children_member(p, d, n);
            let j = choose|j: int| 0 <= j < p.len() && p[j] == d.push(n);
            assert(keys[j] == d.push(n));
        }
    }
}

/// The names listed in one directory of a memory tree are distinct.
pub proof fn lemma_children_distinct(keys: Seq<Seq<Seq<char>>>, d: Seq<Seq<char>>)
    requires
        unique_keys(keys),
    ensures
        children(keys, d).no_duplicates(),
    decreases keys.len(),
{
    if keys.len() > 0 {
        let k = keys.last();
        let p = keys.drop_last();
        lemma_unique_drop_last(keys);
        lemma_children_distinct(p, d);
        if is_child(k, d) {
            let c = children(p, d);
            assert(!c.contains(k.last())) by {
                if c.contains(k.last()) {
                    lemma_children_member(p, d, k.last());
                    assert(k =~= d.push(k.last()));
                    assert(index_of(keys.subrange(0, keys.len() - 1), keys[keys.len() - 1]).is_none());
                    assert(keys.subrange(0, keys.len() - 1) =~= p);
                    lemma_index_of(p, k);
                }
            }
            assert forall|i: int, j: int| 0 <= i < c.push(k.last()).len() && 0 <= j < c.push(k.last()).len() && i != j implies c.push(k.last())[i] != c.push(k.last())[j] by {
                if i == c.len() {
                    assert(c.contains(c[j]));
                } else if j == c.len() {
                    assert(c.contains(c[i]));
                }
            }
        }
    }
}

/// Every listing of a well-formed filesystem names each entry once.
pub proof fn lemma_listing_distinct(fs: BoxedFs, d: Seq<Seq<char>>)
    requires
        fs.wf(),
        fs.listing(d) is Ok,
    ensures
        fs.listing(d)->Ok_0.no_duplicates(),
    decreases fs,
{
    match fs {
        BoxedFs::Memory(m) => {
            lemma_memory_children_distinct(m, d);
        },
        BoxedFs::Overlay(b) => {
            match (b.upper.listing(d), b.lower.listing(d)) {
                (Ok(u), Ok(l)) => {
                    lemma_listing_distinct(b.upper, d);
                    lemma_listing_distinct(b.lower, d);
                    lemma_merge_names(u, l);
                },
                (Ok(u), Err(_)) => {
                    lemma_listing_distinct(b.upper, d);
                },
                (Err(_), Ok(l)) => {
                    lemma_listing_distinct(b.lower, d);
                },
                (Err(_), Err(_)) => {},
            }
        },
        BoxedFs::Composite(c) => {
            if d.len() > 0 {
                match position_of(mount_names(c.mounts@), d[0]) {
                    Some(i) => {
                        if 0 <= i < c.mounts@.len() {
                            assert(c.mounts@[i].fs.wf());
                            lemma_listing_distinct(c.mounts@[i].fs, d.drop_first());
                        }
                    },
                    None => {},
                }
            }
        },
        BoxedFs::Empty => {},
    }
}

proof fn lemma_memory_children_distinct(m: MemoryFS, d: Seq<Seq<char>>)
    requires
        m.wf(),
    ensures
        children(m.key_views(), d).no_duplicates(),
{
    m.lemma_wf_unique();
    lemma_children_distinct(m.key_views(), d);
}

/// Where a directory can be listed on both sides of an overlay, the merged
/// listing names every name of either side exactly once, and so has as many
/// entries as the union of the two sides' names.
pub proof fn lemma_overlay_listing_dedup(fs: BoxedFs, d: Seq<Seq<char>>)
    requires
        fs is Overlay,
        fs.wf(),
        fs->Overlay_0.upper.listing(d) is Ok,
        fs->Overlay_0.lower.listing(d) is Ok,
    ensures
        ({
            let u = fs->Overlay_0.upper.listing(d)->Ok_0;
            let l = fs->Overlay_0.lower.listing(d)->Ok_0;
            &&& fs.listing(d) == Ok::<Seq<Seq<char>>, crate::error::ErrorKind>(merge_names(u, l))
            &&& merge_names(u, l).no_duplicates()
            &&& merge_names(u, l).to_set() == u.to_set().union(l.to_set())
            &&& merge_names(u, l).len() == u.to_set().union(l.to_set()).len()
        }),
{
    let b = fs->Overlay_0;
    lemma_listing_distinct(b.upper, d);
    lemma_listing_distinct(b.lower, d);
    lemma_merge_names(b.upper.listing(d)->Ok_0, b.lower.listing(d)->Ok_0);
}

/// In a composite, `/<name>/<rest>` is `<rest>` in the filesystem mounted as
/// `<name>`, and nothing exists under a name that is not mounted.
pub proof fn lemma_composite_routing(fs: BoxedFs, name: Seq<char>, rest: Seq<Seq<char>>)
    requires
        fs is Composite,
    ensures
        ({
            let c = fs->Composite_0;
            let k = seq![name] + rest;
            match position_of(mount_names(c.mounts@), name) {
                Some(i) => 0 <= i < c.mounts@.len() && fs.entry(k) == if rest.len() == 0 {
                    Some(root_node())
                } else {
                    c.mounts@[i].fs.entry(rest)
                },
                None => fs.entry(k).is_none(),
            }
        }),
{
    let c = fs->Composite_0;
    let k = seq![name] + rest;
    assert(k[0] == name);
    assert(k.drop_first() =~= rest);
    crate::path::lemma_position_of(mount_names(c.mounts@), name);
}

/// In a composite, the path text `/<name>/x` denotes `<name>` followed by
/// what `x` denotes, and exists exactly where `x` exists in the filesystem
/// mounted as `<name>`; under a name that is not mounted nothing exists. `x`
/// stays below its root and names something below it.
pub proof fn lemma_composite_routing_text(fs: BoxedFs, name: Seq<char>, x: Seq<char>)
    requires
        fs is Composite,
        valid_segment(name),
        resolved(Seq::empty(), x) is Some,
        resolved(Seq::empty(), x)->Some_0.len() > 0,
    ensures
        ({
            let c = fs->Composite_0;
            let loc = resolved(Seq::empty(), x)->Some_0;
            let k = resolved(Seq::empty(), seq!['/'] + name + seq!['/'] + x);
            &&& k == Some(seq![name] + loc)
            &&& match position_of(mount_names(c.mounts@), name) {
                Some(i) => 0 <= i < c.mounts@.len() && fs.entry(k->Some_0).is_some() == c.mounts@[i].fs.entry(loc).is_some(),
                None => fs.entry(k->Some_0).is_none(),
            }
        }),
{
    lemma_resolve_under_name(name, x);
    lemma_composite_routing(fs, name, resolved(Seq::empty(), x)->Some_0);
}

/// Boxing a memory filesystem changes none of its answers.
pub proof fn lemma_boxing_transparent(m: MemoryFS, k: Seq<Seq<char>>)
    ensures
        BoxedFs::Memory(m).entry(k) == m.entry(k),
        metadata_result(BoxedFs::Memory(m).entry(k)) == metadata_result(m.entry(k)),
        read_result(BoxedFs::Memory(m).entry(k)) == read_result(m.entry(k)),
{
}

/// A clone made by `box_clone` answers every read as the original does.
pub proof fn lemma_box_clone_same(p: BoxedPath, q: BoxedPath)
    requires
        q.backend() == p.backend(),
        q.location() == p.location(),
    ensures
        q.entry() == p.entry(),
        metadata_result(q.entry()) == metadata_result(p.entry()),
        read_result(q.entry()) == read_result(p.entry()),
        q.backend().listing(q.location()) == p.backend().listing(p.location()),
{
}

} // verus!
