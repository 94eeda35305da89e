//! Union-find over the indices `0..n`, with union by size and path compression.

use crate::forest::proofs::{
    lemma_component_bound, lemma_depth_bound, lemma_forest_rank, lemma_link, lemma_link_sets,
    lemma_link_then_compress, lemma_on_path, lemma_on_path_ends, lemma_on_path_trans,
    lemma_redirect, lemma_root_of, lemma_same_roots, lemma_singletons,
};
use crate::forest::{
    component_of, compressed, depth_of, in_range, is_forest, joined, on_path, rank_of, ranked,
    root_of, roots, singletons, size_of,
};
use vstd::prelude::*;

verus! {

#[derive(Debug, Clone, Copy, PartialEq, Eq)]
enum Entry {
    Root { size: usize },
    Link { index: usize },
}

/// A partition of `0..n` into disjoint sets, each named by one of its members.
///
/// The view is the parent map of the forest that holds the sets: `self@[i]` is the index
/// that `i` links to, or `i` itself where `i` is the root of its set.
#[derive(Debug, Clone, PartialEq, Eq)]
pub struct DisjointSet {
    entries: Vec<Entry>,
    num_sets: usize,
}

/// The parent map that the entries stand for: a root is its own parent.
spec fn parents(entries: Seq<Entry>) -> Seq<int> {
    Seq::new(
        entries.len(),
        |i: int|
            match entries[i] {
                Entry::Root { .. } => i,
                Entry::Link { index } => index as int,
            },
    )
}

/// The entry at `i` is a link to another index, or a root that holds the size of its set.
spec fn entry_wf(entries: Seq<Entry>, i: int) -> bool {
    match entries[i] {
        Entry::Link { index } => index < entries.len() && index != i,
        Entry::Root { size } => size == size_of(parents(entries), i),
    }
}

/// Every link leads to another index, and every root holds the size of its set.
spec fn entries_wf(entries: Seq<Entry>) -> bool {
    forall|i: int| #![trigger entries[i]] 0 <= i < entries.len() ==> entry_wf(entries, i)
}

impl View for DisjointSet {
    type V = Seq<int>;

    closed spec fn view(&self) -> Seq<int> {
        parents(self.entries@)
    }
}

impl DisjointSet {
    /// The links form a forest, every root knows the size of its set, and the number of
    /// sets is the number of roots.
    pub closed spec fn wf(&self) -> bool {
        &&& entries_wf(self.entries@)
        &&& is_forest(self@)
        &&& self.num_sets == roots(self@).len()
    }

    /// The view of a well-formed set is a forest, so that what is proved of forests holds
    /// of it.
    pub proof fn lemma_forest(&self)
        requires
            self.wf(),
        ensures
            is_forest(self@),
    {
    }

    /// `len` sets of one member each.
    pub fn new(len: usize) -> (set: Self)
        ensures
            set.wf(),
            set@ == singletons(len as nat),
    {
        let mut entries: Vec<Entry> = Vec::new();
        let mut i: usize = 0;
        while i < len
            invariant
                i <= len,
                entries@.len() == i,
                forall|k: int| 0 <= k < i ==> entries@[k] == (Entry::Root { size: 1 }),
            decreases len - i,
        {
            entries.push(Entry::Root { size: 1 });
            i += 1;
        }
        proof {
            lemma_singletons(len as nat);
            assert(parents(entries@) =~= singletons(len as nat));
            assert forall|k: int| #![trigger entries@[k]] 0 <= k < entries@.len() implies entry_wf(
                entries@,
                k,
            ) by {
                assert(size_of(singletons(len as nat), k) == 1);
            }
        }
        Self { entries, num_sets: len }
    }

    /// The number of sets.
    pub fn num_sets(&self) -> (n: usize)
        requires
            self.wf(),
        ensures
            n == roots(self@).len(),
    {
        self.num_sets
    }

    /// The number of indices.
    pub fn len(&self) -> (n: usize)
        ensures
            n == self@.len(),
    {
        self.entries.len()
    }

    /// The member that names the set of `index`.
    pub fn find(&self, index: usize) -> (root: usize)
        requires
            self.wf(),
            index < self@.len(),
        ensures
            root == root_of(self@, index as int),
            root < self@.len(),
    {
        let mut i = index;
        proof {
            let rank = lemma_forest_rank(self@);
            lemma_root_of(self@, rank, index as int);
        }
        loop
            invariant
                self.wf(),
                i < self.entries@.len(),
                root_of(self@, i as int) == root_of(self@, index as int),
            decreases rank_of(self@)[i as int],
        {
            match self.entries[i] {
                Entry::Root { size: _ } => {
                    return i;
                },
                Entry::Link { index: j } => {
                    proof {
                        let rank = lemma_forest_rank(self@);
                        assert(self@[i as int] == j);
                        lemma_root_of(self@, rank, i as int);
                    }
                    i = j;
                },
            }
        }
    }

    /// The size of the set of `index`.
    pub fn num_members(&self, index: usize) -> (n: usize)
        requires
            self.wf(),
            index < self@.len(),
        ensures
            n == component_of(self@, index as int).len(),
    {
        let root = self.find(index);
        proof {
            let rank = lemma_forest_rank(self@);
            lemma_root_of(self@, rank, index as int);
            assert(component_of(self@, root as int) =~= component_of(self@, index as int));
        }
        match self.entries[root] {
            Entry::Root { size } => size,
            Entry::Link { index: _ } => {
                proof {
                    assert(self@[root as int] != root);
                }
                unreached()
            },
        }
    }

    /// Points every index on the way from `index` to its root straight at that root.
    fn compress(&mut self, index: usize, root: usize)
        requires
            old(self).wf(),
            index < old(self)@.len(),
            root == root_of(old(self)@, index as int),
        ensures
            final(self).wf(),
            final(self)@ == compressed(old(self)@, index as int),
    {
        let ghost start = self@;
        let ghost rank = rank_of(start);
        let mut i = index;
        proof {
            lemma_forest_rank(start);
            lemma_root_of(start, rank, index as int);
            lemma_on_path_ends(start, rank, index as int);
            assert(self@ =~= Seq::new(
                start.len(),
                |k: int|
                    if on_path(start, index as int, k) && !on_path(start, i as int, k) {
                        root as int
                    } else {
                        start[k]
                    },
            ));
        }
        loop
            invariant
                self.wf(),
                in_range(start),
                ranked(start, rank),
                ranked(self@, rank),
                self@.len() == start.len(),
                index < start.len(),
                i < start.len(),
                root == root_of(start, index as int),
                on_path(start, index as int, i as int),
                forall|k: int|
                    0 <= k < start.len() ==> #[trigger] root_of(self@, k) == root_of(start, k),
                self@ == Seq::new(
                    start.len(),
                    |k: int|
                        if on_path(start, index as int, k) && !on_path(start, i as int, k) {
                            root as int
                        } else {
                            start[k]
                        },
                ),
            ensures
                self.wf(),
                self@ == compressed(start, index as int),
            decreases rank[i as int],
        {
            proof {
                lemma_root_of(start, rank, i as int);
                lemma_on_path(start, rank, index as int, i as int);
                lemma_on_path_ends(start, rank, i as int);
                assert(self@[i as int] == start[i as int]);
            }
            match self.entries[i] {
                Entry::Root { size: _ } => {
                    proof {
                        assert(start[i as int] == i);
                        assert(self@ =~= compressed(start, index as int));
                    }
                    break ;
                },
                Entry::Link { index: j } => {
                    let ghost before = self@;
                    let ghost old_entries = self.entries@;
                    self.entries[i] = Entry::Link { index: root };
                    proof {
                        assert(start[i as int] == j);
                        assert(root_of(before, i as int) == root);
                        lemma_redirect(before, rank, i as int);
                        assert(self@ =~= before.update(i as int, root as int));
                        lemma_same_roots(before, self@, rank, rank);
                        assert(is_forest(self@));
                        assert forall|k: int|
                            #![trigger self.entries@[k]]
                            0 <= k < self.entries@.len() implies entry_wf(self.entries@, k) by {
                            if k != i {
                                assert(self.entries@[k] == old_entries[k]);
                                assert(component_of(self@, k) == component_of(before, k));
                            }
                        }
                        // The path goes on from `j`, and `i` is behind it for good.
                        lemma_on_path_ends(start, rank, j as int);
                        lemma_on_path_trans(start, rank, index as int, i as int, j as int);
                        if on_path(start, j as int, i as int) {
                            lemma_on_path(start, rank, j as int, i as int);
                        }
                        assert(self@ =~= Seq::new(
                            start.len(),
                            |k: int|
                                if on_path(start, index as int, k) && !on_path(start, j as int, k) {
                                    root as int
                                } else {
                                    start[k]
                                },
                        ));
                    }
                    i = j;
                },
            }
        }
    }

    /// Unites the sets of `a` and `b`.
    ///
    /// Nothing changes when they are one set already. Otherwise the root of the smaller set
    /// is linked below the root of the larger one (below that of `a` when both are of one
    /// size), and every index passed on the way from `a` and from `b` to their roots then
    /// links straight to the surviving root.
    pub fn join(&mut self, a: usize, b: usize)
        requires
            old(self).wf(),
            a < old(self)@.len(),
            b < old(self)@.len(),
        ensures
            final(self).wf(),
            final(self)@ == joined(old(self)@, a as int, b as int),
            root_of(old(self)@, a as int) == root_of(old(self)@, b as int) ==> *final(self) == *old(
                self,
            ),
            root_of(old(self)@, a as int) != root_of(old(self)@, b as int) ==> roots(
                final(self)@,
            ).len() == roots(old(self)@).len() - 1,
    {
        let a_root = self.find(a);
        let b_root = self.find(b);
        if a_root == b_root {
            return ;
        }
        let a_size = self.num_members(a_root);
        let b_size = self.num_members(b_root);
        let ghost start = self@;
        let ghost rank = rank_of(start);
        proof {
            lemma_forest_rank(start);
            lemma_root_of(start, rank, a as int);
            lemma_root_of(start, rank, b as int);
            assert(component_of(start, a_root as int) =~= component_of(start, a as int));
            assert(component_of(start, b_root as int) =~= component_of(start, b as int));
        }
        let (x, y, winner, loser) = if a_size < b_size {
            (b, a, b_root, a_root)
        } else {
            (a, b, a_root, b_root)
        };
        proof {
            lemma_link_sets(start, rank, winner as int, loser as int);
            lemma_component_bound(start.update(loser as int, winner as int), winner as int);
            assert(start.len() == self.entries.len());
            lemma_root_of(start, rank, winner as int);
            lemma_root_of(start, rank, loser as int);
        }
        let ghost old_entries = self.entries@;
        self.entries[loser] = Entry::Link { index: winner };
        self.entries[winner] = Entry::Root { size: a_size + b_size };
        self.num_sets -= 1;
        proof {
            let hung = start.update(loser as int, winner as int);
            lemma_link(start, rank, winner as int, loser as int);
            assert(self@ =~= hung);
            assert(is_forest(self@));
            assert forall|k: int|
                #![trigger self.entries@[k]]
                0 <= k < self.entries@.len() implies entry_wf(self.entries@, k) by {
                if k != winner && k != loser {
                    assert(self.entries@[k] == old_entries[k]);
                    if old_entries[k] is Root {
                        lemma_root_of(start, rank, k);
                        assert(component_of(hung, k) == component_of(start, k));
                    }
                }
            }
            lemma_link_then_compress(start, rank, x as int, y as int);
        }
        self.compress(x, winner);
        self.compress(y, winner);
        proof {
            assert(self@ =~= joined(start, a as int, b as int));
            let hung_rank = lemma_link(start, rank, winner as int, loser as int);
            let end_rank = lemma_forest_rank(self@);
            lemma_same_roots(start.update(loser as int, winner as int), self@, hung_rank, end_rank);
        }
    }

    /// Whether `index` is the only member of its set.
    pub fn is_singleton(&self, index: usize) -> (alone: bool)
        requires
            self.wf(),
            index < self@.len(),
        ensures
            alone == (component_of(self@, index as int).len() == 1),
    {
        proof {
            let rank = lemma_forest_rank(self@);
            lemma_root_of(self@, rank, index as int);
            lemma_component_bound(self@, index as int);
            let c = component_of(self@, index as int);
            if self@[index as int] != index {
                let r = root_of(self@, index as int);
                assert(c.contains(r));
                assert(c.remove(r).contains(index as int));
                assert(c.remove(r).len() >= 1);
            }
        }
        match self.entries[index] {
            Entry::Root { size } => size == 1,
            Entry::Link { index: _ } => false,
        }
    }

    /// The number of links between `index` and the root of its set.
    pub fn depth(&self, index: usize) -> (depth: usize)
        requires
            self.wf(),
            index < self@.len(),
        ensures
            depth == depth_of(self@, index as int),
    {
        let mut i = index;
        let mut depth: usize = 0;
        proof {
            let rank = lemma_forest_rank(self@);
            lemma_depth_bound(self@, rank, index as int);
        }
        loop
            invariant
                self.wf(),
                i < self.entries@.len(),
                index < self.entries@.len(),
                depth + depth_of(self@, i as int) == depth_of(self@, index as int),
                depth_of(self@, index as int) < self@.len(),
            decreases rank_of(self@)[i as int],
        {
            match self.entries[i] {
                Entry::Root { size: _ } => {
                    return depth;
                },
                Entry::Link { index: j } => {
                    proof {
                        assert(self@[i as int] == j);
                        assert(depth_of(self@, i as int) == 1 + depth_of(self@, j as int));
                        assert(self@.len() == self.entries.len());
                    }
                    i = j;
                    depth += 1;
                },
            }
        }
    }

    /// The root of every index, in order.
    pub fn values(&self) -> (all: Vec<usize>)
        requires
            self.wf(),
        ensures
            all@.len() == self@.len(),
            forall|i: int| 0 <= i < self@.len() ==> all@[i] == root_of(self@, i),
    {
        let mut all: Vec<usize> = Vec::new();
        let mut i: usize = 0;
        while i < self.entries.len()
            invariant
                self.wf(),
                i <= self.entries@.len(),
                all@.len() == i,
                forall|k: int| 0 <= k < i ==> all@[k] == root_of(self@, k),
            decreases self.entries@.len() - i,
        {
            let root = self.find(i);
            all.push(root);
            i += 1;
        }
        all
    }
}

} // verus!
