//! Parent maps and the forests they describe.
//!
//! A parent map is a sequence `p` in which `p[i]` is the parent of node `i`; a node that is
//! its own parent is a root. The map is a forest when every chain of parents ends in a root.

pub mod proofs;

use vstd::prelude::*;

verus! {

/// Every parent is a node of the map.
pub open spec fn in_range(p: Seq<int>) -> bool {
    forall|i: int| 0 <= i < p.len() ==> 0 <= #[trigger] p[i] < p.len()
}

/// `rank` strictly falls along every link of `p`.
pub open spec fn ranked(p: Seq<int>, rank: Seq<nat>) -> bool {
    &&& rank.len() == p.len()
    &&& forall|i: int| 0 <= i < p.len() && #[trigger] p[i] != i ==> rank[p[i]] < rank[i]
}

/// The parent map has no cycle but the self-loops at its roots.
pub open spec fn is_forest(p: Seq<int>) -> bool {
    in_range(p) && exists|rank: Seq<nat>| ranked(p, rank)
}

/// Some rank that falls along the links of a forest.
pub open spec fn rank_of(p: Seq<int>) -> Seq<nat> {
    choose|rank: Seq<nat>| ranked(p, rank)
}

/// The root that the chain of parents from `i` ends in.
pub open spec fn root_of(p: Seq<int>, i: int) -> int
    decreases rank_of(p)[i],
    when is_forest(p) && 0 <= i < p.len()
{
    if p[i] == i {
        i
    } else {
        root_of(p, p[i])
    }
}

/// The number of links between `i` and its root.
pub open spec fn depth_of(p: Seq<int>, i: int) -> nat
    decreases rank_of(p)[i],
    when is_forest(p) && 0 <= i < p.len()
{
    if p[i] == i {
        0
    } else {
        1 + depth_of(p, p[i])
    }
}

/// `k` lies on the chain of parents from `i` to its root, both ends included.
pub open spec fn on_path(p: Seq<int>, i: int, k: int) -> bool
    decreases rank_of(p)[i],
    when is_forest(p) && 0 <= i < p.len()
{
    k == i || (p[i] != i && on_path(p, p[i], k))
}

/// The nodes on the path from `i`.
pub open spec fn path_of(p: Seq<int>, i: int) -> Set<int> {
    Set::new(|k: int| on_path(p, i, k))
}

/// The roots of the map.
pub open spec fn roots(p: Seq<int>) -> Set<int> {
    Set::new(|k: int| 0 <= k < p.len() && p[k] == k)
}

/// The nodes that share their root with `i`.
pub open spec fn component_of(p: Seq<int>, i: int) -> Set<int> {
    Set::new(|k: int| 0 <= k < p.len() && root_of(p, k) == root_of(p, i))
}

/// The size of the component of `i`.
pub open spec fn size_of(p: Seq<int>, i: int) -> nat {
    component_of(p, i).len()
}

/// The forest of `n` roots.
pub open spec fn singletons(n: nat) -> Seq<int> {
    Seq::new(n, |i: int| i)
}

/// The map in which every node on the path from `i` points straight at the root of `i`.
pub open spec fn compressed(p: Seq<int>, i: int) -> Seq<int> {
    Seq::new(
        p.len(),
        |k: int|
            if on_path(p, i, k) {
                root_of(p, i)
            } else {
                p[k]
            },
    )
}

/// The root that survives when the components of `a` and `b` are joined: that of the larger
/// component, and that of `a` when both are of one size.
pub open spec fn winner(p: Seq<int>, a: int, b: int) -> int {
    if size_of(p, a) < size_of(p, b) {
        root_of(p, b)
    } else {
        root_of(p, a)
    }
}

/// The root that stops being one when the components of `a` and `b` are joined.
pub open spec fn loser(p: Seq<int>, a: int, b: int) -> int {
    if size_of(p, a) < size_of(p, b) {
        root_of(p, a)
    } else {
        root_of(p, b)
    }
}

/// The forest after the components of `a` and `b` are joined. Nothing changes when they
/// share a root. Otherwise every node on the two paths, the losing root among them, points
/// straight at the winning root, and every other node keeps its parent.
pub open spec fn joined(p: Seq<int>, a: int, b: int) -> Seq<int> {
    if root_of(p, a) == root_of(p, b) {
        p
    } else {
        Seq::new(
            p.len(),
            |k: int|
                if on_path(p, a, k) || on_path(p, b, k) {
                    winner(p, a, b)
                } else {
                    p[k]
                },
        )
    }
}

/// The forest that `n` roots become when the pairs are joined in order.
pub open spec fn joined_all(n: nat, pairs: Seq<(int, int)>) -> Seq<int>
    decreases pairs.len(),
{
    if pairs.len() == 0 {
        singletons(n)
    } else {
        joined(joined_all(n, pairs.drop_last()), pairs.last().0, pairs.last().1)
    }
}

/// Whether the pairs connect `a` and `b`: the two are one node, or the pairs before the
/// last connect them, or the last pair bridges what the pairs before it connect `a` and
/// `b` to.
pub open spec fn linked(pairs: Seq<(int, int)>, a: int, b: int) -> bool
    decreases pairs.len(),
{
    if pairs.len() == 0 {
        a == b
    } else {
        let before = pairs.drop_last();
        let x = pairs.last().0;
        let y = pairs.last().1;
        linked(before, a, b) || (linked(before, a, x) && linked(before, y, b)) || (linked(
            before,
            a,
            y,
        ) && linked(before, x, b))
    }
}

} // verus!
