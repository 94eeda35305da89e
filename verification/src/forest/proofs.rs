//! What holds of forests, and what linking, compressing and joining do to them.

use crate::forest::{
    component_of, compressed, depth_of, in_range, is_forest, joined, joined_all, linked, loser,
    on_path, path_of, rank_of, ranked, root_of, roots, singletons, size_of, winner,
};
use vstd::prelude::*;
use vstd::set_lib::*;

verus! {

/// Every forest has a rank to induct on.
pub proof fn lemma_forest_rank(p: Seq<int>) -> (rank: Seq<nat>)
    requires
        is_forest(p),
    ensures
        ranked(p, rank),
        rank == rank_of(p),
{
    rank_of(p)
}

/// The root of `i` is a root of the map, and no rank on the way up lies below its own.
pub proof fn lemma_root_of(p: Seq<int>, rank: Seq<nat>, i: int)
    requires
        in_range(p),
        ranked(p, rank),
        0 <= i < p.len(),
    ensures
        is_forest(p),
        0 <= root_of(p, i) < p.len(),
        p[root_of(p, i)] == root_of(p, i),
        root_of(p, root_of(p, i)) == root_of(p, i),
        root_of(p, p[i]) == root_of(p, i),
        rank[root_of(p, i)] <= rank[i],
        p[i] != i ==> rank[root_of(p, i)] < rank[i],
    decreases rank[i],
{
    if p[i] != i {
        lemma_root_of(p, rank, p[i]);
    }
}

/// Whatever lies on the path from `i` is a node with the root of `i` and no higher rank.
pub proof fn lemma_on_path(p: Seq<int>, rank: Seq<nat>, i: int, k: int)
    requires
        in_range(p),
        ranked(p, rank),
        0 <= i < p.len(),
        on_path(p, i, k),
    ensures
        0 <= k < p.len(),
        root_of(p, k) == root_of(p, i),
        rank[k] <= rank[i],
        k != i ==> rank[k] < rank[i],
    decreases rank[i],
{
    lemma_root_of(p, rank, i);
    if k != i {
        lemma_on_path(p, rank, p[i], k);
    }
}

/// A path holds its first node and its root.
pub proof fn lemma_on_path_ends(p: Seq<int>, rank: Seq<nat>, i: int)
    requires
        in_range(p),
        ranked(p, rank),
        0 <= i < p.len(),
    ensures
        on_path(p, i, i),
        on_path(p, i, root_of(p, i)),
    decreases rank[i],
{
    lemma_root_of(p, rank, i);
    if p[i] != i {
        lemma_on_path_ends(p, rank, p[i]);
    }
}

/// The path from a node on a path is the rest of that path.
pub proof fn lemma_on_path_trans(p: Seq<int>, rank: Seq<nat>, i: int, j: int, k: int)
    requires
        in_range(p),
        ranked(p, rank),
        0 <= i < p.len(),
        on_path(p, i, j),
        on_path(p, j, k),
    ensures
        on_path(p, i, k),
    decreases rank[i],
{
    lemma_root_of(p, rank, i);
    if j != i {
        lemma_on_path_trans(p, rank, p[i], j, k);
    }
}

/// Two forests that agree along the path from `i` give `i` the same path, root and depth.
pub proof fn lemma_agree_on_path(p: Seq<int>, q: Seq<int>, rp: Seq<nat>, rq: Seq<nat>, i: int)
    requires
        in_range(p),
        ranked(p, rp),
        in_range(q),
        ranked(q, rq),
        p.len() == q.len(),
        0 <= i < p.len(),
        forall|k: int| #[trigger] on_path(p, i, k) ==> q[k] == p[k],
    ensures
        root_of(q, i) == root_of(p, i),
        depth_of(q, i) == depth_of(p, i),
        forall|k: int|
            #![trigger on_path(q, i, k)]
            #![trigger on_path(p, i, k)]
            on_path(q, i, k) == on_path(p, i, k),
    decreases rp[i],
{
    lemma_root_of(p, rp, i);
    lemma_root_of(q, rq, i);
    assert(on_path(p, i, i));
    if p[i] != i {
        let j = p[i];
        assert forall|k: int| #[trigger] on_path(p, j, k) implies q[k] == p[k] by {
            assert(on_path(p, i, k));
        }
        lemma_agree_on_path(p, q, rp, rq, j);
        assert forall|k: int| on_path(q, i, k) == on_path(p, i, k) by {
            assert(on_path(q, j, k) == on_path(p, j, k));
        }
    } else {
        assert forall|k: int| on_path(q, i, k) == on_path(p, i, k) by {}
    }
}

/// A path visits each of its nodes once, so it is shorter than the map.
pub proof fn lemma_depth_bound(p: Seq<int>, rank: Seq<nat>, i: int)
    requires
        in_range(p),
        ranked(p, rank),
        0 <= i < p.len(),
    ensures
        path_of(p, i).finite(),
        path_of(p, i).len() == depth_of(p, i) + 1,
        depth_of(p, i) < p.len(),
    decreases rank[i],
{
    lemma_root_of(p, rank, i);
    lemma_int_range(0, p.len() as int);
    assert forall|k: int| path_of(p, i).contains(k) implies set_int_range(0, p.len() as int).contains(
        k,
    ) by {
        lemma_on_path(p, rank, i, k);
    }
    lemma_len_subset(path_of(p, i), set_int_range(0, p.len() as int));
    if p[i] == i {
        assert(path_of(p, i) =~= set![i]);
    } else {
        let j = p[i];
        lemma_depth_bound(p, rank, j);
        if on_path(p, j, i) {
            lemma_on_path(p, rank, j, i);
        }
        assert(path_of(p, i) =~= path_of(p, j).insert(i));
    }
}

/// A component is a finite set of nodes that holds the node it is named after.
pub proof fn lemma_component_bound(p: Seq<int>, i: int)
    ensures
        component_of(p, i).finite(),
        component_of(p, i).len() <= p.len(),
        0 <= i < p.len() ==> component_of(p, i).contains(i) && component_of(p, i).len() >= 1,
{
    lemma_int_range(0, p.len() as int);
    lemma_len_subset(component_of(p, i), set_int_range(0, p.len() as int));
    if 0 <= i < p.len() {
        assert(component_of(p, i).contains(i));
    }
}

/// The roots are a finite set of nodes.
pub proof fn lemma_roots_bound(p: Seq<int>)
    ensures
        roots(p).finite(),
        roots(p).len() <= p.len(),
{
    lemma_int_range(0, p.len() as int);
    lemma_len_subset(roots(p), set_int_range(0, p.len() as int));
}

/// Two forests that give every node the same root have the same components and roots.
pub proof fn lemma_same_roots(p: Seq<int>, q: Seq<int>, rp: Seq<nat>, rq: Seq<nat>)
    requires
        in_range(p),
        ranked(p, rp),
        in_range(q),
        ranked(q, rq),
        p.len() == q.len(),
        forall|k: int| 0 <= k < p.len() ==> #[trigger] root_of(q, k) == root_of(p, k),
    ensures
        roots(q) == roots(p),
        forall|i: int| 0 <= i < p.len() ==> #[trigger] component_of(q, i) == component_of(p, i),
{
    assert forall|k: int| roots(q).contains(k) == roots(p).contains(k) by {
        if 0 <= k < p.len() {
            lemma_root_of(p, rp, k);
            lemma_root_of(q, rq, k);
            assert(root_of(q, k) == root_of(p, k));
        }
    }
    assert(roots(q) =~= roots(p));
    assert forall|i: int| 0 <= i < p.len() implies #[trigger] component_of(q, i) == component_of(
        p,
        i,
    ) by {
        assert(root_of(q, i) == root_of(p, i));
        assert forall|k: int| component_of(q, i).contains(k) == component_of(p, i).contains(k) by {
            if 0 <= k < p.len() {
                assert(root_of(q, k) == root_of(p, k));
            }
        }
        assert(component_of(q, i) =~= component_of(p, i));
    }
}

/// A forest has one root exactly when all of its nodes share their root.
pub proof fn lemma_single_root(p: Seq<int>)
    requires
        is_forest(p),
        p.len() > 0,
    ensures
        (roots(p).len() == 1) == (forall|i: int, j: int|
            0 <= i < p.len() && 0 <= j < p.len() ==> root_of(p, i) == root_of(p, j)),
{
    let rank = lemma_forest_rank(p);
    lemma_roots_bound(p);
    let all_same = forall|i: int, j: int|
        0 <= i < p.len() && 0 <= j < p.len() ==> root_of(p, i) == root_of(p, j);
    if all_same {
        let r = root_of(p, 0);
        lemma_root_of(p, rank, 0);
        assert forall|k: int| roots(p).contains(k) == set![r].contains(k) by {
            if 0 <= k < p.len() {
                lemma_root_of(p, rank, k);
                assert(root_of(p, k) == root_of(p, 0));
            }
        }
        assert(roots(p) =~= set![r]);
    }
    if roots(p).len() == 1 {
        assert forall|i: int, j: int| 0 <= i < p.len() && 0 <= j < p.len() implies root_of(p, i)
            == root_of(p, j) by {
            lemma_root_of(p, rank, i);
            lemma_root_of(p, rank, j);
            let ri = root_of(p, i);
            let rj = root_of(p, j);
            assert(roots(p).contains(ri));
            assert(roots(p).contains(rj));
            if ri != rj {
                assert(roots(p).remove(ri).contains(rj));
                assert(roots(p).remove(ri).len() >= 1);
            }
        }
    }
}

/// In the forest of `n` roots every node is a component of its own.
pub proof fn lemma_singletons(n: nat)
    ensures
        is_forest(singletons(n)),
        roots(singletons(n)).len() == n,
        forall|i: int| 0 <= i < n ==> #[trigger] root_of(singletons(n), i) == i,
        forall|i: int| 0 <= i < n ==> #[trigger] component_of(singletons(n), i) == set![i],
        forall|i: int| 0 <= i < n ==> #[trigger] size_of(singletons(n), i) == 1,
{
    let p = singletons(n);
    let rank = Seq::new(n, |i: int| 0nat);
    assert(ranked(p, rank));
    lemma_int_range(0, n as int);
    assert(roots(p) =~= set_int_range(0, n as int));
    assert forall|i: int| 0 <= i < n implies #[trigger] component_of(p, i) == set![i] by {
        assert forall|k: int| component_of(p, i).contains(k) == set![i].contains(k) by {
            if 0 <= k < n {
                assert(root_of(p, k) == k);
            }
            assert(root_of(p, i) == i);
        }
        assert(component_of(p, i) =~= set![i]);
    }
    assert forall|i: int| 0 <= i < n implies #[trigger] size_of(p, i) == 1 by {
        assert(component_of(p, i) == set![i]);
    }
}

/// The root of one node after the root `l` is hung below the root `w`.
proof fn lemma_link_root(p: Seq<int>, rank: Seq<nat>, new_rank: Seq<nat>, w: int, l: int, k: int)
    requires
        in_range(p),
        ranked(p, rank),
        in_range(p.update(l, w)),
        ranked(p.update(l, w), new_rank),
        0 <= w < p.len(),
        0 <= l < p.len(),
        p[w] == w,
        p[l] == l,
        w != l,
        0 <= k < p.len(),
    ensures
        root_of(p.update(l, w), k) == if root_of(p, k) == l {
            w
        } else {
            root_of(p, k)
        },
    decreases rank[k],
{
    let q = p.update(l, w);
    lemma_root_of(p, rank, k);
    lemma_root_of(q, new_rank, k);
    lemma_root_of(q, new_rank, w);
    if k == l {
    } else if p[k] == k {
    } else {
        lemma_link_root(p, rank, new_rank, w, l, p[k]);
    }
}

/// Hanging the root `l` below the root `w` moves the nodes of `l` to `w` and no others.
pub proof fn lemma_link(p: Seq<int>, rank: Seq<nat>, w: int, l: int) -> (new_rank: Seq<nat>)
    requires
        in_range(p),
        ranked(p, rank),
        0 <= w < p.len(),
        0 <= l < p.len(),
        p[w] == w,
        p[l] == l,
        w != l,
    ensures
        in_range(p.update(l, w)),
        ranked(p.update(l, w), new_rank),
        forall|k: int|
            0 <= k < p.len() ==> #[trigger] root_of(p.update(l, w), k) == if root_of(p, k) == l {
                w
            } else {
                root_of(p, k)
            },
{
    let q = p.update(l, w);
    let new_rank = Seq::new(
        p.len(),
        |k: int|
            if root_of(p, k) == l {
                (rank[k] + rank[w] + 1) as nat
            } else {
                rank[k]
            },
    );
    lemma_root_of(p, rank, w);
    lemma_root_of(p, rank, l);
    assert forall|i: int| 0 <= i < q.len() && #[trigger] q[i] != i implies new_rank[q[i]]
        < new_rank[i] by {
        lemma_root_of(p, rank, i);
        if i != l {
            assert(p[i] != i);
            lemma_root_of(p, rank, p[i]);
        }
    }
    assert forall|k: int| 0 <= k < p.len() implies #[trigger] root_of(q, k) == if root_of(p, k)
        == l {
        w
    } else {
        root_of(p, k)
    } by {
        lemma_link_root(p, rank, new_rank, w, l, k);
    }
    new_rank
}

/// After the root `l` is hung below `w`, a path inside the tree of `l` goes on to `w`.
pub proof fn lemma_link_path(p: Seq<int>, rank: Seq<nat>, new_rank: Seq<nat>, w: int, l: int, i: int)
    requires
        in_range(p),
        ranked(p, rank),
        in_range(p.update(l, w)),
        ranked(p.update(l, w), new_rank),
        0 <= w < p.len(),
        0 <= l < p.len(),
        p[w] == w,
        p[l] == l,
        w != l,
        0 <= i < p.len(),
        root_of(p, i) == l,
    ensures
        forall|k: int|
            #![trigger on_path(p.update(l, w), i, k)]
            #![trigger on_path(p, i, k)]
            on_path(p.update(l, w), i, k) == (on_path(p, i, k) || k == w),
    decreases rank[i],
{
    let q = p.update(l, w);
    lemma_root_of(p, rank, i);
    lemma_root_of(q, new_rank, i);
    lemma_root_of(q, new_rank, w);
    if i == l {
        assert forall|k: int| on_path(q, i, k) == (on_path(p, i, k) || k == w) by {
            assert(on_path(q, w, k) == (k == w));
        }
    } else {
        lemma_link_path(p, rank, new_rank, w, l, p[i]);
        assert forall|k: int| on_path(q, i, k) == (on_path(p, i, k) || k == w) by {
            assert(on_path(q, p[i], k) == (on_path(p, p[i], k) || k == w));
        }
    }
}

/// Hanging the root `l` below the root `w` unites their components, leaves the others as
/// they were, and takes `l` out of the roots.
pub proof fn lemma_link_sets(p: Seq<int>, rank: Seq<nat>, w: int, l: int)
    requires
        in_range(p),
        ranked(p, rank),
        0 <= w < p.len(),
        0 <= l < p.len(),
        p[w] == w,
        p[l] == l,
        w != l,
    ensures
        roots(p.update(l, w)) == roots(p).remove(l),
        roots(p.update(l, w)).len() == roots(p).len() - 1,
        component_of(p.update(l, w), w) == component_of(p, w).union(component_of(p, l)),
        component_of(p.update(l, w), w).len() == component_of(p, w).len() + component_of(p, l).len(),
        forall|i: int|
            0 <= i < p.len() && root_of(p, i) != w && root_of(p, i) != l
                ==> #[trigger] component_of(p.update(l, w), i) == component_of(p, i),
{
    let q = p.update(l, w);
    let new_rank = lemma_link(p, rank, w, l);
    lemma_root_of(p, rank, w);
    lemma_root_of(p, rank, l);
    lemma_roots_bound(p);
    assert(roots(p).contains(l));
    assert(roots(q) =~= roots(p).remove(l));
    let cw = component_of(p, w);
    let cl = component_of(p, l);
    lemma_component_bound(p, w);
    lemma_component_bound(p, l);
    assert forall|k: int| component_of(q, w).contains(k) == cw.union(cl).contains(k) by {
        if 0 <= k < p.len() {
            assert(root_of(q, k) == if root_of(p, k) == l {
                w
            } else {
                root_of(p, k)
            });
            assert(root_of(q, w) == w);
        }
    }
    assert(component_of(q, w) =~= cw.union(cl));
    assert(cw.disjoint(cl));
    lemma_set_disjoint_lens(cw, cl);
    assert forall|i: int|
        0 <= i < p.len() && root_of(p, i) != w && root_of(p, i) != l implies #[trigger] component_of(
        q,
        i,
    ) == component_of(p, i) by {
        assert(root_of(q, i) == root_of(p, i));
        assert forall|k: int| component_of(q, i).contains(k) == component_of(p, i).contains(k) by {
            if 0 <= k < p.len() {
                assert(root_of(q, k) == if root_of(p, k) == l {
                    w
                } else {
                    root_of(p, k)
                });
            }
        }
        assert(component_of(q, i) =~= component_of(p, i));
    }
}

/// The root of one node after `i` has been pointed at its root.
proof fn lemma_redirect_root(p: Seq<int>, rank: Seq<nat>, i: int, k: int)
    requires
        in_range(p),
        ranked(p, rank),
        in_range(p.update(i, root_of(p, i))),
        ranked(p.update(i, root_of(p, i)), rank),
        0 <= i < p.len(),
        0 <= k < p.len(),
    ensures
        root_of(p.update(i, root_of(p, i)), k) == root_of(p, k),
    decreases rank[k],
{
    let r = root_of(p, i);
    let q = p.update(i, r);
    lemma_root_of(p, rank, i);
    lemma_root_of(p, rank, k);
    lemma_root_of(q, rank, k);
    lemma_root_of(q, rank, r);
    if k == i {
    } else if p[k] == k {
    } else {
        lemma_redirect_root(p, rank, i, p[k]);
    }
}

/// Pointing `i` straight at its root changes no root and needs no new rank.
pub proof fn lemma_redirect(p: Seq<int>, rank: Seq<nat>, i: int)
    requires
        in_range(p),
        ranked(p, rank),
        0 <= i < p.len(),
    ensures
        in_range(p.update(i, root_of(p, i))),
        ranked(p.update(i, root_of(p, i)), rank),
        forall|k: int|
            0 <= k < p.len() ==> #[trigger] root_of(p.update(i, root_of(p, i)), k) == root_of(p, k),
{
    let q = p.update(i, root_of(p, i));
    lemma_root_of(p, rank, i);
    assert forall|j: int| 0 <= j < q.len() && #[trigger] q[j] != j implies rank[q[j]]
        < rank[j] by {
        if j != i {
            assert(p[j] != j);
        }
    }
    assert forall|k: int| 0 <= k < p.len() implies #[trigger] root_of(q, k) == root_of(p, k) by {
        lemma_redirect_root(p, rank, i, k);
    }
}

/// The root of one node after the path from `i` has been compressed.
proof fn lemma_compressed_root(p: Seq<int>, rank: Seq<nat>, i: int, k: int)
    requires
        in_range(p),
        ranked(p, rank),
        in_range(compressed(p, i)),
        ranked(compressed(p, i), rank),
        0 <= i < p.len(),
        0 <= k < p.len(),
    ensures
        root_of(compressed(p, i), k) == root_of(p, k),
    decreases rank[k],
{
    let r = root_of(p, i);
    let q = compressed(p, i);
    lemma_root_of(p, rank, i);
    lemma_root_of(p, rank, k);
    lemma_root_of(q, rank, k);
    lemma_root_of(q, rank, r);
    lemma_on_path_ends(p, rank, i);
    if on_path(p, i, k) {
        lemma_on_path(p, rank, i, k);
    } else if p[k] == k {
    } else {
        lemma_compressed_root(p, rank, i, p[k]);
    }
}

/// Compressing a path changes no root and needs no new rank.
pub proof fn lemma_compressed(p: Seq<int>, rank: Seq<nat>, i: int)
    requires
        in_range(p),
        ranked(p, rank),
        0 <= i < p.len(),
    ensures
        in_range(compressed(p, i)),
        ranked(compressed(p, i), rank),
        forall|k: int| 0 <= k < p.len() ==> #[trigger] root_of(compressed(p, i), k) == root_of(p, k),
{
    let q = compressed(p, i);
    lemma_root_of(p, rank, i);
    assert forall|j: int| 0 <= j < q.len() && #[trigger] q[j] != j implies rank[q[j]]
        < rank[j] by {
        if on_path(p, i, j) {
            lemma_on_path(p, rank, i, j);
            lemma_root_of(p, rank, j);
        }
    }
    assert forall|k: int| 0 <= k < p.len() implies #[trigger] root_of(q, k) == root_of(p, k) by {
        lemma_compressed_root(p, rank, i, k);
    }
}

/// Linking the root `l` of `y` below the root `w` of `x` and then compressing the paths
/// from `x` and from `y` sends every node of the two old paths to `w` and moves no other.
pub proof fn lemma_link_then_compress(p: Seq<int>, rank: Seq<nat>, x: int, y: int) -> (new_rank: Seq<
    nat,
>)
    requires
        in_range(p),
        ranked(p, rank),
        0 <= x < p.len(),
        0 <= y < p.len(),
        root_of(p, x) != root_of(p, y),
    ensures
        ({
            let w = root_of(p, x);
            let l = root_of(p, y);
            let hung = p.update(l, w);
            let half = compressed(hung, x);
            let done = compressed(half, y);
            &&& ranked(hung, new_rank)
            &&& ranked(half, new_rank)
            &&& ranked(done, new_rank)
            &&& in_range(hung)
            &&& in_range(half)
            &&& in_range(done)
            &&& root_of(hung, x) == w
            &&& root_of(half, y) == w
            &&& done == Seq::new(
                p.len(),
                |k: int|
                    if on_path(p, x, k) || on_path(p, y, k) {
                        w
                    } else {
                        p[k]
                    },
            )
            &&& forall|k: int|
                0 <= k < p.len() ==> #[trigger] root_of(done, k) == if root_of(p, k) == l {
                    w
                } else {
                    root_of(p, k)
                }
        }),
{
    let w = root_of(p, x);
    let l = root_of(p, y);
    lemma_root_of(p, rank, x);
    lemma_root_of(p, rank, y);
    lemma_on_path_ends(p, rank, x);
    lemma_on_path_ends(p, rank, y);
    let hung = p.update(l, w);
    let new_rank = lemma_link(p, rank, w, l);
    assert(root_of(hung, x) == w);
    assert(root_of(hung, y) == w);
    // The path from x is untouched by the link.
    assert forall|k: int| #[trigger] on_path(p, x, k) implies hung[k] == p[k] by {
        lemma_on_path(p, rank, x, k);
        lemma_root_of(p, rank, l);
    }
    lemma_agree_on_path(p, hung, rank, new_rank, x);
    lemma_link_path(p, rank, new_rank, w, l, y);
    let half = compressed(hung, x);
    lemma_compressed(hung, new_rank, x);
    assert(root_of(half, y) == w);
    // The path from y is untouched by the first compression.
    assert forall|k: int| #[trigger] on_path(hung, y, k) implies half[k] == hung[k] by {
        if on_path(p, y, k) {
            lemma_on_path(p, rank, y, k);
            if on_path(p, x, k) {
                lemma_on_path(p, rank, x, k);
            }
        }
    }
    lemma_agree_on_path(hung, half, new_rank, new_rank, y);
    let done = compressed(half, y);
    lemma_compressed(half, new_rank, y);
    let target = Seq::new(
        p.len(),
        |k: int|
            if on_path(p, x, k) || on_path(p, y, k) {
                w
            } else {
                p[k]
            },
    );
    assert forall|k: int| 0 <= k < p.len() implies done[k] == target[k] by {
        assert(on_path(half, y, k) == on_path(hung, y, k));
        assert(on_path(hung, y, k) == (on_path(p, y, k) || k == w));
        assert(on_path(hung, x, k) == on_path(p, x, k));
    }
    assert(done =~= target);
    assert forall|k: int| 0 <= k < p.len() implies #[trigger] root_of(done, k) == if root_of(p, k)
        == l {
        w
    } else {
        root_of(p, k)
    } by {
        assert(root_of(done, k) == root_of(half, k));
        assert(root_of(half, k) == root_of(hung, k));
    }
    new_rank
}

/// What joining does to a forest: it stays a forest of the same nodes, the nodes of the
/// losing root move to the winning root and no other node changes its root, one root is
/// lost unless `a` and `b` shared theirs, and where they did not, `a` and `b` end at most
/// one link below their common root.
pub proof fn lemma_joined(p: Seq<int>, a: int, b: int)
    requires
        is_forest(p),
        0 <= a < p.len(),
        0 <= b < p.len(),
    ensures
        is_forest(joined(p, a, b)),
        joined(p, a, b).len() == p.len(),
        forall|k: int|
            0 <= k < p.len() ==> #[trigger] root_of(joined(p, a, b), k) == if root_of(p, k) == loser(
                p,
                a,
                b,
            ) {
                winner(p, a, b)
            } else {
                root_of(p, k)
            },
        roots(joined(p, a, b)) == if root_of(p, a) == root_of(p, b) {
            roots(p)
        } else {
            roots(p).remove(loser(p, a, b))
        },
        roots(joined(p, a, b)).len() == if root_of(p, a) == root_of(p, b) {
            roots(p).len() as int
        } else {
            roots(p).len() - 1
        },
        root_of(p, a) != root_of(p, b) ==> depth_of(joined(p, a, b), a) <= 1 && depth_of(
            joined(p, a, b),
            b,
        ) <= 1,
{
    let rank = lemma_forest_rank(p);
    lemma_root_of(p, rank, a);
    lemma_root_of(p, rank, b);
    if root_of(p, a) == root_of(p, b) {
        assert(component_of(p, a) =~= component_of(p, b));
    } else {
        let x = if size_of(p, a) < size_of(p, b) {
            b
        } else {
            a
        };
        let y = if size_of(p, a) < size_of(p, b) {
            a
        } else {
            b
        };
        let w = root_of(p, x);
        let l = root_of(p, y);
        let q = joined(p, a, b);
        let new_rank = lemma_link_then_compress(p, rank, x, y);
        let hung = p.update(l, w);
        let done = compressed(compressed(hung, x), y);
        assert(q =~= done);
        lemma_link_sets(p, rank, w, l);
        lemma_link(p, rank, w, l);
        lemma_same_roots(hung, q, new_rank, new_rank);
        lemma_on_path_ends(p, rank, a);
        lemma_on_path_ends(p, rank, b);
        lemma_root_of(q, new_rank, w);
        lemma_root_of(q, new_rank, a);
        lemma_root_of(q, new_rank, b);
        assert(q[a] == w);
        assert(q[b] == w);
        assert(depth_of(q, w) == 0);
        assert(depth_of(q, a) <= 1);
        assert(depth_of(q, b) <= 1);
    }
}

/// After `a` and `b` are joined they have one root.
pub proof fn lemma_join_unites(p: Seq<int>, a: int, b: int)
    requires
        is_forest(p),
        0 <= a < p.len(),
        0 <= b < p.len(),
    ensures
        root_of(joined(p, a, b), a) == root_of(joined(p, a, b), b),
        root_of(joined(p, a, b), a) == winner(p, a, b),
{
    lemma_joined(p, a, b);
    let rank = lemma_forest_rank(p);
    lemma_root_of(p, rank, a);
    lemma_root_of(p, rank, b);
    if root_of(p, a) == root_of(p, b) {
        assert(component_of(p, a) =~= component_of(p, b));
    }
    assert(root_of(joined(p, a, b), a) == if root_of(p, a) == loser(p, a, b) {
        winner(p, a, b)
    } else {
        root_of(p, a)
    });
    assert(root_of(joined(p, a, b), b) == if root_of(p, b) == loser(p, a, b) {
        winner(p, a, b)
    } else {
        root_of(p, b)
    });
}

/// Joining the same pair a second time changes nothing.
pub proof fn lemma_join_idempotent(p: Seq<int>, a: int, b: int)
    requires
        is_forest(p),
        0 <= a < p.len(),
        0 <= b < p.len(),
    ensures
        joined(joined(p, a, b), a, b) == joined(p, a, b),
{
    lemma_join_unites(p, a, b);
}

/// Two nodes share a root after a join exactly when they did before, or when the join
/// bridged their two components.
pub proof fn lemma_join_same_root(p: Seq<int>, a: int, b: int, x: int, y: int)
    requires
        is_forest(p),
        0 <= a < p.len(),
        0 <= b < p.len(),
        0 <= x < p.len(),
        0 <= y < p.len(),
    ensures
        (root_of(joined(p, a, b), x) == root_of(joined(p, a, b), y)) == (root_of(p, x) == root_of(
            p,
            y,
        ) || (root_of(p, x) == root_of(p, a) && root_of(p, y) == root_of(p, b)) || (root_of(p, x)
            == root_of(p, b) && root_of(p, y) == root_of(p, a))),
{
    lemma_joined(p, a, b);
    let q = joined(p, a, b);
    assert(root_of(q, x) == if root_of(p, x) == loser(p, a, b) {
        winner(p, a, b)
    } else {
        root_of(p, x)
    });
    assert(root_of(q, y) == if root_of(p, y) == loser(p, a, b) {
        winner(p, a, b)
    } else {
        root_of(p, y)
    });
}

/// The set of `a` after a join with `b` is the union of their two sets.
pub proof fn lemma_join_component(p: Seq<int>, a: int, b: int)
    requires
        is_forest(p),
        0 <= a < p.len(),
        0 <= b < p.len(),
    ensures
        component_of(joined(p, a, b), a) == component_of(p, a).union(component_of(p, b)),
        root_of(p, a) != root_of(p, b) ==> size_of(joined(p, a, b), a) == size_of(p, a) + size_of(
            p,
            b,
        ),
{
    let q = joined(p, a, b);
    assert forall|k: int|
        component_of(q, a).contains(k) == component_of(p, a).union(component_of(p, b)).contains(
            k,
        ) by {
        if 0 <= k < p.len() {
            lemma_join_same_root(p, a, b, k, a);
            lemma_join_same_root(p, a, b, k, b);
            lemma_join_unites(p, a, b);
        } else {
            lemma_joined(p, a, b);
        }
    }
    assert(component_of(q, a) =~= component_of(p, a).union(component_of(p, b)));
    if root_of(p, a) != root_of(p, b) {
        lemma_component_bound(p, a);
        lemma_component_bound(p, b);
        assert(component_of(p, a).disjoint(component_of(p, b)));
        lemma_set_disjoint_lens(component_of(p, a), component_of(p, b));
    }
}

/// After any sequence of joins two nodes share a root exactly when the joined pairs
/// connect them.
pub proof fn lemma_joined_all(n: nat, pairs: Seq<(int, int)>, a: int, b: int)
    requires
        forall|k: int|
            0 <= k < pairs.len() ==> 0 <= (#[trigger] pairs[k]).0 < n && 0 <= pairs[k].1 < n,
        0 <= a < n,
        0 <= b < n,
    ensures
        is_forest(joined_all(n, pairs)),
        joined_all(n, pairs).len() == n,
        (root_of(joined_all(n, pairs), a) == root_of(joined_all(n, pairs), b)) == linked(
            pairs,
            a,
            b,
        ),
    decreases pairs.len(),
{
    if pairs.len() == 0 {
        lemma_singletons(n);
    } else {
        let before = pairs.drop_last();
        let x = pairs.last().0;
        let y = pairs.last().1;
        assert(0 <= pairs[pairs.len() - 1].0 < n);
        assert forall|k: int| 0 <= k < before.len() implies 0 <= (#[trigger] before[k]).0 < n && 0
            <= before[k].1 < n by {
            assert(before[k] == pairs[k]);
        }
        lemma_joined_all(n, before, a, b);
        lemma_joined_all(n, before, a, x);
        lemma_joined_all(n, before, y, b);
        lemma_joined_all(n, before, a, y);
        lemma_joined_all(n, before, x, b);
        let p = joined_all(n, before);
        lemma_joined(p, x, y);
        lemma_join_same_root(p, x, y, a, b);
    }
}

} // verus!
