//! The generators. Each one takes down walls of a fully walled [`Grid`] step by step until
//! all cells are in one region.

pub mod backtracking;
pub mod kruskal;
pub mod wfc;

use crate::forest::{depth_of, root_of};
use crate::grid::model::GridModel;
use crate::grid::Grid;
use vstd::prelude::*;

verus! {

/// The generators to choose from.
#[derive(Debug, Clone, Copy, PartialEq, Eq, Default, Structural)]
pub enum MazeType {
    #[default]
    Backtracking,
    Kruskal,
    Wfc,
}

/// The state of the generator that was chosen.
#[derive(Debug)]
pub enum MazeState {
    Backtracking(backtracking::MazeState),
    Kruskal(kruskal::MazeState),
    Wfc(wfc::MazeState),
}

impl MazeState {
    /// The generator that this is the state of.
    pub open spec fn maze_type(&self) -> MazeType {
        match self {
            MazeState::Backtracking(_) => MazeType::Backtracking,
            MazeState::Kruskal(_) => MazeType::Kruskal,
            MazeState::Wfc(_) => MazeType::Wfc,
        }
    }

    /// The state is one for a grid of this size.
    pub open spec fn fits(&self, grid: GridModel) -> bool {
        match self {
            MazeState::Backtracking(state) => state.fits(grid),
            MazeState::Kruskal(state) => state.fits(grid),
            MazeState::Wfc(state) => state@.len() == grid.cells(),
        }
    }

    /// One step of the generator led from `self` and `grid` to `after` and `new_grid`.
    pub open spec fn stepped(&self, grid: GridModel, after: &MazeState, new_grid: GridModel) -> bool {
        match self {
            MazeState::Backtracking(old) => after matches MazeState::Backtracking(new)
                && backtracking::stepped(old@, grid, new@, new_grid),
            MazeState::Kruskal(old) => after matches MazeState::Kruskal(new) && exists|
                carved: bool,
            | #[trigger] kruskal::stepped(old@, grid, new@, new_grid, carved),
            MazeState::Wfc(old) => after matches MazeState::Wfc(new) && wfc::stepped(
                old@,
                grid,
                new@,
                new_grid,
            ),
        }
    }
}

/// The state of the chosen generator for a grid of the given size, before its first step.
/// All that is random in the generator is drawn from the seed.
pub fn setup(maze_type: MazeType, width: usize, height: usize, seed: u64) -> (state: MazeState)
    requires
        0 < width <= i32::MAX,
        0 < height <= i32::MAX,
        width * height <= usize::MAX,
    ensures
        state.maze_type() == maze_type,
        forall|grid: GridModel|
            grid.width == width && grid.height == height ==> #[trigger] state.fits(grid),
        match state {
            MazeState::Backtracking(state) => state@ == Seq::new(
                backtracking::NUM_CURSORS as nat,
                |k: int| seq![backtracking::corner(width as nat, height as nat, k)],
            ),
            MazeState::Kruskal(state) => state@.to_multiset() == kruskal::candidates(
                width as nat,
                height as nat,
            ).to_multiset(),
            MazeState::Wfc(state) => state@ == Seq::new((width * height) as nat, |index: int| false),
        },
{
    match maze_type {
        MazeType::Backtracking => {
            let state = backtracking::setup(width, height, backtracking::NUM_CURSORS, seed);
            MazeState::Backtracking(state)
        },
        MazeType::Kruskal => {
            MazeState::Kruskal(kruskal::init(width, height, seed))
        },
        MazeType::Wfc => MazeState::Wfc(wfc::init(width, height, seed)),
    }
}

impl MazeState {
    /// One step of the generator, whichever it is.
    pub fn step(&mut self, grid: &mut Grid)
        requires
            old(grid).wf(),
            old(self).fits(old(grid)@),
        ensures
            final(grid).wf(),
            final(self).fits(final(grid)@),
            final(grid)@.extends(old(grid)@),
            old(self).stepped(old(grid)@, final(self), final(grid)@),
    {
        let ghost first = grid@;
        let ghost before = *self;
        let ghost mut did_carve = false;
        match self {
            MazeState::Backtracking(maze_state) => {
                backtracking::step(maze_state, grid);
            },
            MazeState::Kruskal(maze_state) => {
                let ghost queue = maze_state@;
                let carved = kruskal::step(maze_state, grid);
                proof {
                    did_carve = carved;
                    assert(kruskal::stepped(queue, first, maze_state@, grid@, did_carve));
                }
            },
            MazeState::Wfc(maze_state) => {
                wfc::step(maze_state, grid);
            },
        }
        proof {
            match before {
                MazeState::Backtracking(old) => {
                    assert(*self is Backtracking);
                    assert(backtracking::stepped(old@, first, (*self)->Backtracking_0@, grid@));
                },
                MazeState::Kruskal(old) => {
                    assert(*self is Kruskal);
                    assert(kruskal::stepped(old@, first, (*self)->Kruskal_0@, grid@, did_carve));
                },
                MazeState::Wfc(old) => {
                    assert(*self is Wfc);
                    assert(wfc::stepped(old@, first, (*self)->Wfc_0@, grid@));
                },
            }
        }
    }
}

/// One tick of the driver: a step of the generator unless the maze is complete. The result
/// says whether it was, and nothing has changed then.
pub fn generate(state: &mut MazeState, grid: &mut Grid) -> (done: bool)
    requires
        old(grid).wf(),
        old(state).fits(old(grid)@),
    ensures
        final(grid).wf(),
        final(state).fits(final(grid)@),
        final(grid)@.extends(old(grid)@),
        done == (old(grid)@.num_regions() == 1),
        done ==> *final(grid) == *old(grid) && *final(state) == *old(state),
        !done ==> old(state).stepped(old(grid)@, final(state), final(grid)@),
{
    if grid.is_complete() {
        return true;
    }
    state.step(grid);
    false
}

/// Whether a grid can have this size: both sides are positive and fit a coordinate, and
/// the number of cells fits the machine.
pub open spec fn valid_size(width: usize, height: usize) -> bool {
    &&& 0 < width <= i32::MAX
    &&& 0 < height <= i32::MAX
    &&& width * height <= usize::MAX
}

/// A maze under construction together with the generator that builds it.
#[derive(Debug)]
pub struct Session {
    grid: Grid,
    state: MazeState,
}

impl Session {
    /// The maze of the session.
    pub closed spec fn spec_grid(&self) -> Grid {
        self.grid
    }

    /// The generator of the session.
    pub closed spec fn spec_state(&self) -> MazeState {
        self.state
    }

    /// The maze is well formed, and the generator is one for a maze of its size.
    pub open spec fn wf(&self) -> bool {
        self.spec_grid().wf() && self.spec_state().fits(self.spec_grid()@)
    }

    /// A fully walled maze of the given size and the chosen generator before its first
    /// step, with all that is random drawn from the seed. There is no session for a size
    /// that no grid can have.
    pub fn new(maze_type: MazeType, width: usize, height: usize, seed: u64) -> (session: Option<
        Session,
    >)
        ensures
            session is Some == valid_size(width, height),
            session matches Some(session) ==> {
                &&& session.wf()
                &&& session.spec_grid()@ == GridModel::walled(width as nat, height as nat)
                &&& session.spec_state().maze_type() == maze_type
            },
    {
        if width == 0 || height == 0 || width > i32::MAX as usize || height > i32::MAX as usize {
            return None;
        }
        if width.checked_mul(height).is_none() {
            return None;
        }
        let grid = Grid::new(width, height);
        let state = setup(maze_type, width, height, seed);
        Some(Session { grid, state })
    }

    /// The maze of the session.
    pub fn grid(&self) -> (grid: &Grid)
        ensures
            *grid == self.spec_grid(),
    {
        &self.grid
    }

    /// The generator of the session.
    pub fn state(&self) -> (state: &MazeState)
        ensures
            *state == self.spec_state(),
    {
        &self.state
    }

    /// One tick of the driver: a step of the generator unless the maze is complete. The
    /// result says whether it was, and nothing has changed then.
    pub fn tick(&mut self) -> (done: bool)
        requires
            old(self).wf(),
        ensures
            final(self).wf(),
            final(self).spec_grid()@.extends(old(self).spec_grid()@),
            done == (old(self).spec_grid()@.num_regions() == 1),
            done ==> *final(self) == *old(self),
            !done ==> old(self).spec_state().stepped(
                old(self).spec_grid()@,
                &final(self).spec_state(),
                final(self).spec_grid()@,
            ),
    {
        generate(&mut self.state, &mut self.grid)
    }
}

/// What the cover of a cell becomes in a tick: nothing over a cell that is in no passage
/// yet, and one step more over any other, up to 64.
pub open spec fn covered(visited: bool, cover: u8) -> u8 {
    if !visited {
        0
    } else if cover < 64 {
        (cover + 1) as u8
    } else {
        64
    }
}

/// Moves the cover of every cell on by one tick.
pub fn update_cover(grid: &Grid, cover: &mut Vec<u8>)
    requires
        grid.wf(),
        old(cover)@.len() == grid@.cells(),
        forall|index: int| 0 <= index < old(cover)@.len() ==> old(cover)@[index] < u8::MAX,
    ensures
        final(cover)@.len() == old(cover)@.len(),
        forall|index: int|
            0 <= index < old(cover)@.len() ==> final(cover)@[index] == covered(
                grid@.visited(grid@.cell_at(index)),
                old(cover)@[index],
            ),
{
    let cells = grid.cells();
    let mut index: usize = 0;
    while index < cells
        invariant
            grid.wf(),
            cells == grid@.cells(),
            cover@.len() == cells,
            old(cover)@.len() == cells,
            index <= cells,
            forall|k: int| index <= k < cells ==> cover@[k] == old(cover)@[k],
            forall|k: int| 0 <= k < old(cover)@.len() ==> old(cover)@[k] < u8::MAX,
            forall|k: int|
                0 <= k < index ==> cover@[k] == covered(
                    grid@.visited(grid@.cell_at(k)),
                    old(cover)@[k],
                ),
        decreases cells - index,
    {
        if !grid.is_visited(grid.cell_at(index)) {
            cover[index] = 0;
        } else {
            let next = cover[index] + 1;
            cover[index] = if next > 64 {
                64
            } else {
                next
            };
        }
        index += 1;
    }
}

/// Writes the low byte of every cell's region into the overlay, and returns the number of
/// regions and the greatest depth of a cell in the forest of the regions.
pub fn update_overlay(grid: &Grid, overlay: &mut Vec<u8>) -> (stats: (usize, usize))
    requires
        grid.wf(),
        old(overlay)@.len() == grid@.cells(),
    ensures
        final(overlay)@.len() == old(overlay)@.len(),
        forall|index: int|
            0 <= index < old(overlay)@.len() ==> final(overlay)@[index] == root_of(
                grid@.regions,
                index,
            ) % 256,
        stats.0 == grid@.num_regions(),
        forall|index: int|
            0 <= index < grid@.cells() ==> depth_of(grid@.regions, index) <= stats.1,
        exists|index: int| 0 <= index < grid@.cells() && depth_of(grid@.regions, index) == stats.1,
{
    let regions = grid.regions();
    let values = regions.values();
    let cells = grid.cells();
    let mut max_depth: usize = 0;
    let mut index: usize = 0;
    proof {
        assert(cells > 0) by (nonlinear_arith)
            requires
                cells == grid@.width * grid@.height,
                grid@.width > 0,
                grid@.height > 0,
        ;
    }
    let ghost mut deepest: int = 0;
    max_depth = regions.depth(0);
    while index < cells
        invariant
            grid.wf(),
            *regions == grid.spec_regions(),
            cells == grid@.cells(),
            cells > 0,
            overlay@.len() == cells,
            values@.len() == cells,
            index <= cells,
            forall|k: int| 0 <= k < cells ==> values@[k] == root_of(grid@.regions, k),
            forall|k: int| 0 <= k < index ==> overlay@[k] == root_of(grid@.regions, k) % 256,
            forall|k: int| 0 <= k < index ==> depth_of(grid@.regions, k) <= max_depth,
            0 <= deepest < cells,
            depth_of(grid@.regions, deepest) == max_depth,
        decreases cells - index,
    {
        let region = values[index];
        assert(region & 0xff == region % 256) by (bit_vector);
        overlay[index] = (region & 0xff) as u8;
        let depth = regions.depth(index);
        if depth > max_depth {
            max_depth = depth;
            proof {
                deepest = index as int;
            }
        }
        index += 1;
    }
    (regions.num_sets(), max_depth)
}

} // verus!
