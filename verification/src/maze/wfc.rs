//! Carving by least choice: in every step one of the unresolved cells with the fewest
//! possible moves is resolved, by a coin flip for each of its moves.

use crate::grid::model::GridModel;
use crate::grid::{Dir, Grid, Pos};
use crate::random::{coin_flip, random_index, seeded};
use rand::rngs::StdRng;
use vstd::prelude::*;

verus! {

/// Which cells are resolved, and the source of randomness of the generator.
///
/// The view is the flag of every cell in row-major order: `true` once the cell has been
/// resolved.
#[derive(Debug)]
pub struct MazeState {
    fixed: Vec<bool>,
    rng: StdRng,
}

impl View for MazeState {
    type V = Seq<bool>;

    closed spec fn view(&self) -> Seq<bool> {
        self.fixed@
    }
}

/// The number of walls that may come down around the cell at `index`.
pub open spec fn num_moves(grid: GridModel, index: int) -> nat {
    grid.possible_moves(grid.cell_at(index)).len()
}

/// Whether the cell at `index` may be resolved: it is not resolved yet, and a wall around
/// it may come down.
pub open spec fn eligible(fixed: Seq<bool>, grid: GridModel, index: int) -> bool {
    0 <= index < grid.cells() && !fixed[index] && num_moves(grid, index) > 0
}

/// Whether the cell at `index` is one of those that the next step may resolve: it is
/// eligible, and no eligible cell has fewer moves.
pub open spec fn is_choice(fixed: Seq<bool>, grid: GridModel, index: int) -> bool {
    eligible(fixed, grid, index) && forall|other: int|
        eligible(fixed, grid, other) ==> num_moves(grid, index) <= #[trigger] num_moves(grid, other)
}

/// The choices among the first `n` cells, in order.
pub open spec fn choices_below(fixed: Seq<bool>, grid: GridModel, n: nat) -> Seq<int>
    decreases n,
{
    if n == 0 {
        seq![]
    } else if is_choice(fixed, grid, n - 1) {
        choices_below(fixed, grid, (n - 1) as nat).push(n - 1)
    } else {
        choices_below(fixed, grid, (n - 1) as nat)
    }
}

/// The cells that the next step may resolve, in row-major order.
pub open spec fn choices(fixed: Seq<bool>, grid: GridModel) -> Seq<int> {
    choices_below(fixed, grid, grid.cells())
}

/// The grid after the walls of `pos` toward `moves` have been tried in order: a wall comes
/// down where its flip is `true` and it still separates two regions by then.
pub open spec fn carved(grid: GridModel, pos: Pos, moves: Seq<Dir>, flips: Seq<bool>) -> GridModel
    decreases moves.len(),
{
    if moves.len() == 0 {
        grid
    } else {
        let before = carved(grid, pos, moves.drop_last(), flips.drop_last());
        if flips.last() && before.can_carve(pos, moves.last()) {
            before.remove_wall(pos, moves.last())
        } else {
            before
        }
    }
}

/// The choices among the first cells are the cells among them that are choices.
pub proof fn lemma_choices_below(fixed: Seq<bool>, grid: GridModel, n: nat)
    ensures
        forall|index: int|
            #![trigger choices_below(fixed, grid, n).contains(index)]
            choices_below(fixed, grid, n).contains(index) == (0 <= index < n && is_choice(
                fixed,
                grid,
                index,
            )),
    decreases n,
{
    let all = choices_below(fixed, grid, n);
    if n > 0 {
        let rest = choices_below(fixed, grid, (n - 1) as nat);
        lemma_choices_below(fixed, grid, (n - 1) as nat);
        assert forall|index: int| #![trigger all.contains(index)]
            all.contains(index) == (0 <= index < n && is_choice(fixed, grid, index)) by {
            if all.contains(index) {
                let k = choose|k: int| 0 <= k < all.len() && all[k] == index;
                if k < rest.len() {
                    assert(rest[k] == index);
                    assert(rest.contains(index));
                }
            }
            if 0 <= index < n && is_choice(fixed, grid, index) {
                if index < n - 1 {
                    assert(rest.contains(index));
                    let k = choose|k: int| 0 <= k < rest.len() && rest[k] == index;
                    assert(all[k] == index);
                } else {
                    assert(all[all.len() - 1] == index);
                }
            }
        }
    }
}

/// Among the first cells, if any is eligible, one is eligible with the fewest moves.
proof fn lemma_least(fixed: Seq<bool>, grid: GridModel, n: nat) -> (least: int)
    requires
        exists|index: int| 0 <= index < n && eligible(fixed, grid, index),
    ensures
        0 <= least < n,
        eligible(fixed, grid, least),
        forall|other: int|
            0 <= other < n && eligible(fixed, grid, other) ==> num_moves(grid, least)
                <= #[trigger] num_moves(grid, other),
    decreases n,
{
    if exists|index: int| 0 <= index < n - 1 && eligible(fixed, grid, index) {
        let rest = lemma_least(fixed, grid, (n - 1) as nat);
        if eligible(fixed, grid, n - 1) && num_moves(grid, n - 1) < num_moves(grid, rest) {
            n - 1
        } else {
            rest
        }
    } else {
        n - 1
    }
}

/// There is a choice exactly when there is an eligible cell.
pub proof fn lemma_choices(fixed: Seq<bool>, grid: GridModel)
    ensures
        forall|index: int|
            #![trigger choices(fixed, grid).contains(index)]
            choices(fixed, grid).contains(index) == is_choice(fixed, grid, index),
        (choices(fixed, grid).len() > 0) == (exists|index: int| eligible(fixed, grid, index)),
{
    let all = choices(fixed, grid);
    lemma_choices_below(fixed, grid, grid.cells());
    if exists|index: int| eligible(fixed, grid, index) {
        let some = choose|index: int| eligible(fixed, grid, index);
        assert(0 <= some < grid.cells() && eligible(fixed, grid, some));
        let least = lemma_least(fixed, grid, grid.cells());
        assert(is_choice(fixed, grid, least));
        assert(all.contains(least));
    }
    if all.len() > 0 {
        assert(all.contains(all[0]));
        assert(eligible(fixed, grid, all[0]));
    }
}

/// While the maze is not complete, a state without a resolved cell has a choice: after a
/// reset the next step resolves a cell.
pub proof fn lemma_reset_recovers(fixed: Seq<bool>, grid: GridModel)
    requires
        grid.shaped(),
        grid.num_regions() > 1,
        fixed.len() == grid.cells(),
        forall|index: int| 0 <= index < fixed.len() ==> !fixed[index],
    ensures
        choices(fixed, grid).len() > 0,
{
    grid.lemma_complete();
    let (cell, dir) = choose|cell: Pos, dir: Dir|
        grid.in_bounds(cell) && #[trigger] grid.can_carve(cell, dir);
    grid.lemma_possible_moves(cell);
    grid.lemma_index(cell);
    grid.lemma_cell_at_index(cell);
    assert(grid.possible_moves(cell).contains(dir));
    assert(eligible(fixed, grid, grid.index_of(cell)));
    lemma_choices(fixed, grid);
}

/// A state for a grid of the given size in which no cell is resolved, and a source of
/// randomness made from the seed.
pub fn init(width: usize, height: usize, seed: u64) -> (state: MazeState)
    requires
        width * height <= usize::MAX,
    ensures
        state@ == Seq::new((width * height) as nat, |index: int| false),
{
    let cells = width * height;
    let mut fixed: Vec<bool> = Vec::new();
    let mut index: usize = 0;
    while index < cells
        invariant
            index <= cells,
            fixed@.len() == index,
            forall|k: int| 0 <= k < index ==> !fixed@[k],
        decreases cells - index,
    {
        fixed.push(false);
        index += 1;
    }
    let state = MazeState { fixed, rng: seeded(seed) };
    proof {
        assert(state@ =~= Seq::new(cells as nat, |index: int| false));
    }
    state
}

impl MazeState {
    /// The flags of the cells in row-major order.
    pub fn fixed(&self) -> (fixed: &Vec<bool>)
        ensures
            fixed@ == self@,
    {
        &self.fixed
    }

    /// Marks every cell as unresolved again.
    pub fn reset(&mut self)
        ensures
            final(self)@ == Seq::new(old(self)@.len(), |index: int| false),
    {
        let mut index: usize = 0;
        while index < self.fixed.len()
            invariant
                index <= self.fixed@.len(),
                self.fixed@.len() == old(self).fixed@.len(),
                forall|k: int| 0 <= k < index ==> !self.fixed@[k],
            decreases self.fixed@.len() - index,
        {
            self.fixed[index] = false;
            index += 1;
        }
        proof {
            assert(self@ =~= Seq::new(old(self)@.len(), |index: int| false));
        }
    }
}

/// The cells that the next step may resolve: the unresolved cells with a possible move
/// that have the fewest possible moves, in row-major order.
pub fn find_choices(state: &MazeState, grid: &Grid) -> (tiles: Vec<usize>)
    requires
        grid.wf(),
        state@.len() == grid@.cells(),
    ensures
        tiles@.len() == choices(state@, grid@).len(),
        forall|k: int| 0 <= k < tiles@.len() ==> tiles@[k] == choices(state@, grid@)[k],
{
    let cells = grid.cells();
    let mut least: usize = 4;
    let mut index: usize = 0;
    while index < cells
        invariant
            grid.wf(),
            cells == grid@.cells(),
            state@.len() == cells,
            index <= cells,
            least <= 4,
            forall|k: int|
                0 <= k < index && eligible(state@, grid@, k) ==> least <= #[trigger] num_moves(
                    grid@,
                    k,
                ),
            least < 4 ==> exists|k: int|
                0 <= k < index && eligible(state@, grid@, k) && #[trigger] num_moves(grid@, k)
                    == least,
        decreases cells - index,
    {
        let moves = grid.possible_moves(grid.cell_at(index));
        proof {
            grid@.lemma_possible_moves(grid@.cell_at(index as int));
        }
        if !state.fixed[index] && moves.len() > 0 && moves.len() <= least {
            least = moves.len();
            proof {
                assert(eligible(state@, grid@, index as int) && num_moves(grid@, index as int)
                    == least);
            }
        }
        index += 1;
    }
    let mut tiles: Vec<usize> = Vec::new();
    let mut index: usize = 0;
    while index < cells
        invariant
            grid.wf(),
            cells == grid@.cells(),
            state@.len() == cells,
            index <= cells,
            least <= 4,
            forall|k: int|
                0 <= k < cells && eligible(state@, grid@, k) ==> least <= #[trigger] num_moves(
                    grid@,
                    k,
                ),
            least < 4 ==> exists|k: int|
                0 <= k < cells && eligible(state@, grid@, k) && #[trigger] num_moves(grid@, k)
                    == least,
            tiles@.len() == choices_below(state@, grid@, index as nat).len(),
            forall|k: int|
                0 <= k < tiles@.len() ==> tiles@[k] == choices_below(state@, grid@, index as nat)[k],
        decreases cells - index,
    {
        let moves = grid.possible_moves(grid.cell_at(index));
        proof {
            grid@.lemma_possible_moves(grid@.cell_at(index as int));
            let here = index as int;
            if eligible(state@, grid@, here) && num_moves(grid@, here) == least {
                assert(is_choice(state@, grid@, here));
            }
            if is_choice(state@, grid@, here) {
                if least < 4 {
                    let k = choose|k: int|
                        0 <= k < cells && eligible(state@, grid@, k) && #[trigger] num_moves(
                            grid@,
                            k,
                        ) == least;
                    assert(num_moves(grid@, here) <= num_moves(grid@, k));
                }
            }
        }
        if !state.fixed[index] && moves.len() > 0 && moves.len() == least {
            tiles.push(index);
        }
        index += 1;
    }
    tiles
}

/// Resolves the cell at `index`: the walls toward `moves` are tried in order, each one
/// whose flip is `true`, and the cell is marked as resolved whether or not a wall came
/// down.
pub fn resolve(
    state: &mut MazeState,
    grid: &mut Grid,
    index: usize,
    moves: &Vec<Dir>,
    flips: &Vec<bool>,
)
    requires
        old(grid).wf(),
        old(state)@.len() == old(grid)@.cells(),
        index < old(grid)@.cells(),
        moves@.len() == flips@.len(),
        forall|k: int|
            0 <= k < moves@.len() ==> old(grid)@.in_bounds(
                old(grid)@.cell_at(index as int).step(#[trigger] moves@[k]),
            ),
    ensures
        final(grid).wf(),
        final(grid)@ == carved(old(grid)@, old(grid)@.cell_at(index as int), moves@, flips@),
        final(grid)@.extends(old(grid)@),
        final(state)@ == old(state)@.update(index as int, true),
{
    let ghost first = grid@;
    let pos = grid.cell_at(index);
    let mut k: usize = 0;
    while k < moves.len()
        invariant
            grid.wf(),
            first == old(grid)@,
            first.wf(),
            first.in_bounds(pos),
            pos == first.cell_at(index as int),
            grid@.extends(first),
            k <= moves@.len(),
            moves@.len() == flips@.len(),
            forall|j: int| 0 <= j < moves@.len() ==> first.in_bounds(pos.step(#[trigger] moves@[j])),
            grid@ == carved(first, pos, moves@.take(k as int), flips@.take(k as int)),
        decreases moves@.len() - k,
    {
        let ghost before = grid@;
        proof {
            assert(moves@.take(k + 1).drop_last() =~= moves@.take(k as int));
            assert(flips@.take(k + 1).drop_last() =~= flips@.take(k as int));
            assert(first.in_bounds(pos.step(moves@[k as int])));
        }
        if flips[k] {
            let _ = grid.remove_wall(pos, moves[k]);
            proof {
                before.lemma_remove_wall_extends(pos, moves@[k as int]);
                if before.can_carve(pos, moves@[k as int]) {
                    grid@.lemma_extends_trans(before, first);
                }
            }
        }
        k += 1;
    }
    proof {
        assert(moves@.take(moves@.len() as int) =~= moves@);
        assert(flips@.take(flips@.len() as int) =~= flips@);
    }
    state.fixed[index] = true;
}

/// What resolving the cell at `index` with the given flips does to the flags and the grid:
/// the cell is one of the choices, there is a flip for each of its possible moves, the
/// walls toward them are tried with those flips, and the cell is marked.
pub open spec fn resolved(
    fixed: Seq<bool>,
    grid: GridModel,
    index: int,
    flips: Seq<bool>,
    new_fixed: Seq<bool>,
    new_grid: GridModel,
) -> bool {
    let cell = grid.cell_at(index);
    let moves = grid.possible_moves(cell);
    &&& is_choice(fixed, grid, index)
    &&& flips.len() == moves.len()
    &&& new_fixed == fixed.update(index, true)
    &&& new_grid == carved(grid, cell, moves, flips)
}

/// What a step does to the flags and the grid. Without a choice the flags are cleared and
/// the grid stays. Otherwise one of the choices is resolved, with some flip for each of
/// its possible moves.
pub open spec fn stepped(
    fixed: Seq<bool>,
    grid: GridModel,
    new_fixed: Seq<bool>,
    new_grid: GridModel,
) -> bool {
    if choices(fixed, grid).len() == 0 {
        new_grid == grid && new_fixed == Seq::new(fixed.len(), |index: int| false)
    } else {
        exists|index: int, flips: Seq<bool>| #[trigger]
            resolved(fixed, grid, index, flips, new_fixed, new_grid)
    }
}

/// One step of the generator.
///
/// Where no cell is a choice, every cell is marked as unresolved again and the grid stays
/// as it is. Otherwise one of the choices is drawn and resolved, with a fair coin flipped
/// for each of its possible moves.
pub fn step(state: &mut MazeState, grid: &mut Grid)
    requires
        old(grid).wf(),
        old(state)@.len() == old(grid)@.cells(),
    ensures
        final(grid).wf(),
        final(state)@.len() == old(state)@.len(),
        final(grid)@.extends(old(grid)@),
        stepped(old(state)@, old(grid)@, final(state)@, final(grid)@),
        choices(old(state)@, old(grid)@).len() == 0 ==> *final(grid) == *old(grid),
{
    let tiles = find_choices(state, grid);
    if tiles.len() == 0 {
        state.reset();
        return ;
    }
    let tile_index = random_index(&mut state.rng, tiles.len());
    let index = tiles[tile_index];
    let ghost first = grid@;
    let ghost before = state@;
    proof {
        lemma_choices(before, first);
        assert(choices(before, first)[tile_index as int] == index);
        assert(choices(before, first).contains(index as int));
    }
    let moves = grid.possible_moves(grid.cell_at(index));
    let mut flips: Vec<bool> = Vec::new();
    while flips.len() < moves.len()
        invariant
            flips@.len() <= moves@.len(),
            state@ == before,
        decreases moves@.len() - flips@.len(),
    {
        let flip = coin_flip(&mut state.rng);
        flips.push(flip);
    }
    proof {
        first.lemma_possible_moves(first.cell_at(index as int));
    }
    resolve(state, grid, index, &moves, &flips);
    proof {
        assert(resolved(before, first, index as int, flips@, state@, grid@));
    }
}

} // verus!
