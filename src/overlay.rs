use vstd::prelude::*;

use crate::boxed::BoxedFs;
use crate::memory::NodeView;
use crate::path::{contains_name, seg_views};
use crate::types::FileType;

verus! {

/// Two filesystems seen as one: `upper` shadows `lower` at every location.
#[derive(Debug)]
pub struct Merge {
    pub lower: BoxedFs,
    pub upper: BoxedFs,
}

impl Merge {
    pub fn new(lower: BoxedFs, upper: BoxedFs) -> (r: Merge)
        ensures
            r.lower == lower,
            r.upper == upper,
    {
        Merge { lower, upper }
    }
}

/// A value that belongs to one of the two sides of an overlay.
#[derive(Debug, Clone)]
pub enum OneOf<S, P> {
    First(S),
    Second(P),
}

/// Where a location of an overlay lives: on one side only, or on both.
#[derive(Debug, Clone)]
pub enum OneOrTwo<S, P> {
    One(OneOf<S, P>),
    Two(S, P),
}

/// Both entries exist and are directories.
pub open spec fn both_dirs(a: Option<NodeView>, b: Option<NodeView>) -> bool {
    a is Some && b is Some && a->Some_0.0 == FileType::Dir && b->Some_0.0 == FileType::Dir
}

impl Merge {
    /// Which sides a location lives on. A location that is a directory on
    /// both sides stays two-sided; one that only the lower side has collapses
    /// to the lower side; every other location is served by the upper side.
    pub fn sides(&self, k: &Vec<String>) -> (r: OneOrTwo<Vec<String>, Vec<String>>)
        requires
            self.lower.wf(),
            self.upper.wf(),
        ensures
            ({
                let kv = seg_views(k@);
                let lo = self.lower.entry(kv);
                let up = self.upper.entry(kv);
                if both_dirs(lo, up) {
                    r matches OneOrTwo::Two(a, b) && seg_views(a@) == kv && seg_views(b@) == kv
                } else if lo is Some && up is None {
                    r matches OneOrTwo::One(OneOf::First(a)) && seg_views(a@) == kv
                } else {
                    r matches OneOrTwo::One(OneOf::Second(b)) && seg_views(b@) == kv
                }
            }),
    {
        let lo = self.lower.metadata_at(k);
        let up = self.upper.metadata_at(k);
        match (lo, up) {
            (Ok(a), Ok(b)) => {
                if a.is_dir() && b.is_dir() {
                    OneOrTwo::Two(k.clone(), k.clone())
                } else {
                    OneOrTwo::One(OneOf::Second(k.clone()))
                }
            },
            (Ok(_), Err(_)) => OneOrTwo::One(OneOf::First(k.clone())),
            _ => OneOrTwo::One(OneOf::Second(k.clone())),
        }
    }
}

/// The names of `l` that `u` does not hold, in the order of `l`.
pub open spec fn without(l: Seq<Seq<char>>, u: Seq<Seq<char>>) -> Seq<Seq<char>>
    decreases l.len(),
{
    if l.len() == 0 {
        Seq::empty()
    } else if u.contains(l.last()) {
        without(l.drop_last(), u)
    } else {
        without(l.drop_last(), u).push(l.last())
    }
}

/// A merged listing: every upper name in upper's order, then every lower name
/// that upper does not shadow, in lower's order.
pub open spec fn merge_names(u: Seq<Seq<char>>, l: Seq<Seq<char>>) -> Seq<Seq<char>> {
    u + without(l, u)
}

/// Builds the merged listing of a directory present on both sides.
pub fn merge_listing(upper: &Vec<String>, lower: &Vec<String>) -> (r: Vec<String>)
    ensures
        seg_views(r@) == merge_names(seg_views(upper@), seg_views(lower@)),
{
    let ghost u = seg_views(upper@);
    let ghost l = seg_views(lower@);
    let mut out = upper.clone();
    proof {
        assert(out@ =~= upper@);
        assert(l.subrange(0, 0) =~= Seq::<Seq<char>>::empty());
        assert(u + without(l.subrange(0, 0), u) =~= u);
    }
    let mut j: usize = 0;
    while j < lower.len()
        invariant
            u == seg_views(upper@),
            l == seg_views(lower@),
            j <= lower.len(),
            seg_views(out@) == u + without(l.subrange(0, j as int), u),
        decreases lower.len() - j,
    {
        let name = &lower[j];
        proof {
            assert(l.subrange(0, j + 1).drop_last() =~= l.subrange(0, j as int));
            assert(l.subrange(0, j + 1).last() == name@);
        }
        if !contains_name(upper, name) {
            let ghost before = out@;
            out.push(name.clone());
            proof {
                assert(seg_views(out@) =~= seg_views(before).push(name@));
                assert(seg_views(out@) =~= u + without(l.subrange(0, j + 1), u));
            }
        }
        j = j + 1;
    }
    proof {
        assert(l.subrange(0, lower.len() as int) =~= l);
    }
    out
}

pub proof fn lemma_without(l: Seq<Seq<char>>, u: Seq<Seq<char>>)
    requires
        l.no_duplicates(),
    ensures
        without(l, u).no_duplicates(),
        forall|x: Seq<char>| #[trigger] without(l, u).contains(x) <==> l.contains(x) && !u.contains(x),
    decreases l.len(),
{
    if l.len() > 0 {
        let p = l.drop_last();
        assert forall|i: int, j: int| 0 <= i < p.len() && 0 <= j < p.len() && i != j implies p[i] != p[j] by {
            assert(p[i] == l[i] && p[j] == l[j]);
        }
        lemma_without(p, u);
        assert forall|x: Seq<char>| l.contains(x) <==> p.contains(x) || x == l.last() by {
            if l.contains(x) {
                let i = choose|i: int| 0 <= i < l.len() && l[i] == x;
                if i < l.len() - 1 {
                    assert(p[i] == x);
                }
            }
            if p.contains(x) {
                let i = choose|i: int| 0 <= i < p.len() && p[i] == x;
                assert(l[i] == x);
            }
            if x == l.last() {
                assert(l[l.len() - 1] == x);
            }
        }
        assert(!p.contains(l.last())) by {
            if p.contains(l.last()) {
                let i = choose|i: int| 0 <= i < p.len() && p[i] == l.last();
                assert(l[i] == l[l.len() - 1]);
            }
        }
        if !u.contains(l.last()) {
            let w = without(p, u);
            assert(without(l, u) == w.push(l.last()));
            assert forall|x: Seq<char>| #[trigger] w.push(l.last()).contains(x) <==> w.contains(x) || x == l.last() by {
                if w.push(l.last()).contains(x) {
                    let i = choose|i: int| 0 <= i < w.push(l.last()).len() && w.push(l.last())[i] == x;
                    if i < w.len() {
                        assert(w[i] == x);
                    }
                }
                if w.contains(x) {
                    let i = choose|i: int| 0 <= i < w.len() && w[i] == x;
                    assert(w.push(l.last())[i] == x);
                }
                if x == l.last() {
                    assert(w.push(l.last())[w.len() as int] == x);
                }
            }
            assert forall|i: int, j: int| 0 <= i < w.push(l.last()).len() && 0 <= j < w.push(l.last()).len() && i != j implies w.push(l.last())[i] != w.push(l.last())[j] by {
                if i == w.len() {
                    assert(w.contains(w[j]));
                } else if j == w.len() {
                    assert(w.contains(w[i]));
                }
            }
        }
    }
}

/// A merged listing holds each name of either side exactly once, provided
/// that each side lists each of its names once.
pub proof fn lemma_merge_names(u: Seq<Seq<char>>, l: Seq<Seq<char>>)
    requires
        u.no_duplicates(),
        l.no_duplicates(),
    ensures
        merge_names(u, l).no_duplicates(),
        merge_names(u, l).to_set() == u.to_set().union(l.to_set()),
        merge_names(u, l).len() == u.to_set().union(l.to_set()).len(),
{
    lemma_without(l, u);
    let w = without(l, u);
    let m = u + w;
    assert forall|x: Seq<char>| #[trigger] m.contains(x) <==> u.contains(x) || w.contains(x) by {
        if m.contains(x) {
            let i = choose|i: int| 0 <= i < m.len() && m[i] == x;
            if i < u.len() {
                assert(u[i] == x);
            } else {
                assert(w[i - u.len()] == x);
            }
        }
        if u.contains(x) {
            let i = choose|i: int| 0 <= i < u.len() && u[i] == x;
            assert(m[i] == x);
        }
        if w.contains(x) {
            let i = choose|i: int| 0 <= i < w.len() && w[i] == x;
            assert(m[u.len() + i] == x);
        }
    }
    assert forall|i: int, j: int| 0 <= i < m.len() && 0 <= j < m.len() && i != j implies m[i] != m[j] by {
        if i < u.len() && j >= u.len() {
            assert(w[j - u.len()] == m[j]);
            assert(w.contains(m[j]));
            assert(u.contains(m[i]));
        } else if j < u.len() && i >= u.len() {
            assert(w[i - u.len()] == m[i]);
            assert(w.contains(m[i]));
            assert(u.contains(m[j]));
        } else if i >= u.len() && j >= u.len() {
            assert(w[i - u.len()] == m[i] && w[j - u.len()] == m[j]);
        }
    }
    assert(m.to_set() =~= u.to_set().union(l.to_set()));
    m.unique_seq_to_set();
}

} // verus!
