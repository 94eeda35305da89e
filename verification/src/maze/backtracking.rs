//! Randomized depth-first carving with one or more cursors.
//!
//! Each cursor keeps the path it has walked. In a round it takes down a wall toward a
//! cell in another region and steps there, or steps back where there is no such wall.

use crate::grid::model::GridModel;
use crate::grid::proofs::lemma_open_bit;
use crate::grid::{Dir, Grid, Pos};
use crate::random::{random_index, seeded};
use rand::rngs::StdRng;
use vstd::prelude::*;

verus! {

/// One walker: the cell it started on, and the path it has walked from there, the cell it
/// stands on last.
#[derive(Debug, Clone)]
pub struct MazeCursor {
    path: Vec<Pos>,
    start: Pos,
}

/// The cursors of the generator and its source of randomness.
#[derive(Debug)]
pub struct MazeState {
    cursors: Vec<MazeCursor>,
    rng: StdRng,
}

/// The corner of the grid that cursor number `k` starts in: south-west, north-east,
/// south-east, north-west.
pub open spec fn corner(width: nat, height: nat, k: int) -> Pos {
    if k == 0 {
        Pos { x: 0, y: 0 }
    } else if k == 1 {
        Pos { x: (width - 1) as i32, y: (height - 1) as i32 }
    } else if k == 2 {
        Pos { x: (width - 1) as i32, y: 0 }
    } else {
        Pos { x: 0, y: (height - 1) as i32 }
    }
}

/// What one cursor does in a round: nothing once its path is empty, a step back where no
/// wall around the cell it stands on may come down, and otherwise a step through one of
/// the walls that may, which comes down.
pub open spec fn cursor_moved(
    path: Seq<Pos>,
    grid: GridModel,
    new_path: Seq<Pos>,
    new_grid: GridModel,
) -> bool {
    if path.len() == 0 {
        new_path == path && new_grid == grid
    } else if grid.possible_moves(path.last()).len() == 0 {
        new_path == path.drop_last() && new_grid == grid
    } else {
        exists|dir: Dir|
            #![trigger grid.can_carve(path.last(), dir)]
            grid.can_carve(path.last(), dir) && new_path == path.push(path.last().step(dir))
                && new_grid == grid.remove_wall(path.last(), dir)
    }
}

/// What a round does: the cursors move one after the other, each on the grid that the
/// one before it left. `grids` holds the grid before each cursor and after the last.
pub open spec fn round_moved(
    paths: Seq<Seq<Pos>>,
    new_paths: Seq<Seq<Pos>>,
    grids: Seq<GridModel>,
) -> bool {
    &&& new_paths.len() == paths.len()
    &&& grids.len() == paths.len() + 1
    &&& forall|k: int|
        0 <= k < paths.len() ==> cursor_moved(
            #[trigger] paths[k],
            grids[k],
            new_paths[k],
            grids[k + 1],
        )
}

impl View for MazeCursor {
    type V = Seq<Pos>;

    closed spec fn view(&self) -> Seq<Pos> {
        self.path@
    }
}

impl MazeCursor {
    /// Every cell of the path is a cell of the grid.
    pub open spec fn fits(&self, grid: GridModel) -> bool {
        forall|k: int| 0 <= k < self@.len() ==> grid.in_bounds(#[trigger] self@[k])
    }

    /// The cell that the cursor started on.
    pub closed spec fn spec_start(&self) -> Pos {
        self.start
    }

    /// A cursor that stands on `start`.
    pub fn new(start: Pos) -> (cursor: MazeCursor)
        ensures
            cursor@ == seq![start],
            cursor.spec_start() == start,
    {
        let mut path: Vec<Pos> = Vec::new();
        path.push(start);
        MazeCursor { path, start }
    }

    /// The cell that the cursor started on.
    pub fn start(&self) -> (start: Pos)
        ensures
            start == self.spec_start(),
    {
        self.start
    }

    /// The cell the cursor stands on, unless its walk is over.
    pub fn position(&self) -> (top: Option<Pos>)
        ensures
            top == if self@.len() == 0 {
                None
            } else {
                Some(self@.last())
            },
    {
        if self.path.len() == 0 {
            None
        } else {
            Some(self.path[self.path.len() - 1])
        }
    }

    /// Steps back to the cell before.
    pub fn retreat(&mut self)
        requires
            old(self)@.len() > 0,
        ensures
            final(self)@ == old(self)@.drop_last(),
            final(self).spec_start() == old(self).spec_start(),
    {
        self.path.pop();
    }

    /// Takes down the wall toward `dir` and steps through it.
    pub fn advance(&mut self, grid: &mut Grid, dir: Dir)
        requires
            old(grid).wf(),
            old(self)@.len() > 0,
            old(grid)@.in_bounds(old(self)@.last()),
            old(grid)@.can_carve(old(self)@.last(), dir),
        ensures
            final(grid).wf(),
            final(grid)@ == old(grid)@.remove_wall(old(self)@.last(), dir),
            final(self)@ == old(self)@.push(old(self)@.last().step(dir)),
            final(self).spec_start() == old(self).spec_start(),
    {
        let top = self.path[self.path.len() - 1];
        let _ = grid.remove_wall(top, dir);
        self.path.push(top.step(dir));
    }

    /// One move of the cursor, with the direction drawn from `rng` where there is a choice.
    fn step(&mut self, grid: &mut Grid, rng: &mut StdRng)
        requires
            old(grid).wf(),
            old(self).fits(old(grid)@),
        ensures
            final(grid).wf(),
            final(self).fits(final(grid)@),
            final(grid)@.extends(old(grid)@),
            cursor_moved(old(self)@, old(grid)@, final(self)@, final(grid)@),
            final(self).spec_start() == old(self).spec_start(),
    {
        let ghost before = grid@;
        if self.path.len() == 0 {
            return ;
        }
        let top = self.path[self.path.len() - 1];
        assert(grid@.in_bounds(self@[self@.len() - 1]));
        let moves = grid.possible_moves(top);
        if moves.len() == 0 {
            self.retreat();
        } else {
            let pick = random_index(rng, moves.len());
            let dir = moves[pick];
            proof {
                before.lemma_possible_moves(top);
                before.lemma_remove_wall_extends(top, dir);
            }
            self.advance(grid, dir);
        }
    }
}

impl View for MazeState {
    type V = Seq<Seq<Pos>>;

    closed spec fn view(&self) -> Seq<Seq<Pos>> {
        Seq::new(self.cursors@.len(), |k: int| self.cursors@[k]@)
    }
}

impl MazeState {
    /// Every cell of every path is a cell of the grid.
    pub open spec fn fits(&self, grid: GridModel) -> bool {
        forall|k: int, i: int|
            0 <= k < self@.len() && 0 <= i < self@[k].len() ==> grid.in_bounds(
                #[trigger] self@[k][i],
            )
    }

    /// The cells that the cursors started on.
    pub closed spec fn starts(&self) -> Seq<Pos> {
        Seq::new(self.cursors@.len(), |k: int| self.cursors@[k].spec_start())
    }

    /// The paths of the cursors account for the state of the maze: see [`accounted`].
    pub open spec fn accounts_for(&self, grid: GridModel) -> bool {
        accounted(self@, self.starts(), grid)
    }

    /// Whether every cursor has walked back to where it started and off the grid.
    pub fn is_done(&self) -> (done: bool)
        ensures
            done == (forall|k: int| 0 <= k < self@.len() ==> (#[trigger] self@[k]).len() == 0),
    {
        let mut k: usize = 0;
        while k < self.cursors.len()
            invariant
                k <= self.cursors@.len(),
                forall|j: int| 0 <= j < k ==> (#[trigger] self@[j]).len() == 0,
            decreases self.cursors@.len() - k,
        {
            if self.cursors[k].path.len() > 0 {
                assert(self@[k as int].len() > 0);
                return false;
            }
            k += 1;
        }
        true
    }

    /// The number of cursors.
    pub fn num_cursors(&self) -> (n: usize)
        ensures
            n == self@.len(),
    {
        self.cursors.len()
    }

    /// The path of cursor number `k`.
    pub fn path(&self, k: usize) -> (path: &Vec<Pos>)
        requires
            k < self@.len(),
        ensures
            path@ == self@[k as int],
    {
        &self.cursors[k].path
    }
}

/// Up to four cursors for a grid of the given size, each on a corner of its own as far as
/// the grid has that many, and a source of randomness made from the seed.
pub fn setup(width: usize, height: usize, num_cursors: usize, seed: u64) -> (state: MazeState)
    requires
        0 < width <= i32::MAX,
        0 < height <= i32::MAX,
        num_cursors <= 4,
    ensures
        state@ == Seq::new(num_cursors as nat, |k: int| seq![corner(width as nat, height as nat, k)]),
        state.starts() == Seq::new(num_cursors as nat, |k: int| corner(width as nat, height as nat, k)),
        state.accounts_for(GridModel::walled(width as nat, height as nat)),
{
    let east = (width - 1) as i32;
    let north = (height - 1) as i32;
    let mut cursors: Vec<MazeCursor> = Vec::new();
    let mut n: usize = 0;
    while n < num_cursors
        invariant
            n <= num_cursors <= 4,
            east == width - 1,
            north == height - 1,
            cursors@.len() == n,
            forall|k: int|
                0 <= k < n ==> (#[trigger] cursors@[k])@ == seq![corner(width as nat, height as nat, k)]
                    && cursors@[k].spec_start() == corner(width as nat, height as nat, k),
        decreases num_cursors - n,
    {
        let start = if n == 0 {
            Pos::new(0, 0)
        } else if n == 1 {
            Pos::new(east, north)
        } else if n == 2 {
            Pos::new(east, 0)
        } else {
            Pos::new(0, north)
        };
        cursors.push(MazeCursor::new(start));
        n += 1;
    }
    let state = MazeState { cursors, rng: seeded(seed) };
    proof {
        assert(state@ =~= Seq::new(
            num_cursors as nat,
            |k: int| seq![corner(width as nat, height as nat, k)],
        ));
        assert(state.starts() =~= Seq::new(
            num_cursors as nat,
            |k: int| corner(width as nat, height as nat, k),
        ));
        lemma_accounted_walled(width as nat, height as nat, state@, state.starts());
    }
    state
}

/// Whether the cell is on the path of some cursor.
pub open spec fn on_some_path(paths: Seq<Seq<Pos>>, cell: Pos) -> bool {
    exists|k: int, i: int|
        0 <= k < paths.len() && 0 <= i < paths[k].len() && #[trigger] paths[k][i] == cell
}

/// What the paths of the cursors say about the state of the maze. Every path lies in the
/// grid and begins where its cursor started, a cursor whose path has run out has left its
/// start settled, and every cell is on a path, or settled, or has all of its walls.
pub open spec fn accounted(paths: Seq<Seq<Pos>>, starts: Seq<Pos>, grid: GridModel) -> bool {
    &&& starts.len() == paths.len()
    &&& forall|k: int, i: int|
        0 <= k < paths.len() && 0 <= i < paths[k].len() ==> grid.in_bounds(#[trigger] paths[k][i])
    &&& forall|k: int|
        0 <= k < paths.len() ==> grid.in_bounds(#[trigger] starts[k]) && if paths[k].len() > 0 {
            paths[k][0] == starts[k]
        } else {
            grid.settled(starts[k])
        }
    &&& forall|cell: Pos|
        grid.in_bounds(cell) ==> on_some_path(paths, cell) || #[trigger] grid.settled(cell)
            || grid.mask(cell) == 0
}

/// Cursors on their starts account for the fully walled grid.
proof fn lemma_accounted_walled(width: nat, height: nat, paths: Seq<Seq<Pos>>, starts: Seq<Pos>)
    requires
        0 < width <= i32::MAX,
        0 < height <= i32::MAX,
        paths.len() == starts.len(),
        paths.len() <= 4,
        forall|k: int|
            0 <= k < paths.len() ==> #[trigger] paths[k] == seq![corner(width, height, k)]
                && starts[k] == corner(width, height, k),
    ensures
        accounted(paths, starts, GridModel::walled(width, height)),
{
    let grid = GridModel::walled(width, height);
    assert forall|cell: Pos| grid.in_bounds(cell) implies on_some_path(paths, cell)
        || #[trigger] grid.settled(cell) || grid.mask(cell) == 0 by {
        grid.lemma_index(cell);
    }
    assert forall|k: int| 0 <= k < paths.len() implies grid.in_bounds(#[trigger] starts[k])
        && if paths[k].len() > 0 {
        paths[k][0] == starts[k]
    } else {
        grid.settled(starts[k])
    } by {
        assert(paths[k] == seq![corner(width, height, k)]);
    }
    assert forall|k: int, i: int|
        0 <= k < paths.len() && 0 <= i < paths[k].len() implies grid.in_bounds(
        #[trigger] paths[k][i],
    ) by {
        assert(paths[k] == seq![corner(width, height, k)]);
    }
}

/// A settled cell stays settled when walls come down.
proof fn lemma_stays_settled(grid: GridModel, later: GridModel, cell: Pos)
    requires
        later.extends(grid),
        grid.in_bounds(cell),
        grid.settled(cell),
    ensures
        later.settled(cell),
{
    later.lemma_stays_joined(grid, cell, Dir::North);
    later.lemma_stays_joined(grid, cell, Dir::East);
    later.lemma_stays_joined(grid, cell, Dir::South);
    later.lemma_stays_joined(grid, cell, Dir::West);
}

/// After the move of one cursor the paths still account for the maze.
proof fn lemma_cursor_accounts(
    paths: Seq<Seq<Pos>>,
    starts: Seq<Pos>,
    grid: GridModel,
    k: int,
    new_path: Seq<Pos>,
    new_grid: GridModel,
)
    requires
        grid.wf(),
        accounted(paths, starts, grid),
        0 <= k < paths.len(),
        cursor_moved(paths[k], grid, new_path, new_grid),
    ensures
        new_grid.wf(),
        new_grid.extends(grid),
        accounted(paths.update(k, new_path), starts, new_grid),
{
    let path = paths[k];
    let new_paths = paths.update(k, new_path);
    grid.lemma_extends_self();
    if path.len() == 0 {
        assert(new_paths =~= paths);
    } else if grid.possible_moves(path.last()).len() == 0 {
        let top = path.last();
        assert(grid.in_bounds(paths[k][path.len() - 1]));
        grid.lemma_settled(top);
        assert forall|cell: Pos| new_grid.in_bounds(cell) implies on_some_path(new_paths, cell)
            || #[trigger] new_grid.settled(cell) || new_grid.mask(cell) == 0 by {
            if on_some_path(paths, cell) && cell != top {
                let (j, i) = choose|j: int, i: int|
                    0 <= j < paths.len() && 0 <= i < paths[j].len() && #[trigger] paths[j][i] == cell;
                assert(new_paths[j][i] == cell);
            }
        }
        assert forall|j: int| 0 <= j < new_paths.len() implies new_grid.in_bounds(
            #[trigger] starts[j],
        ) && if new_paths[j].len() > 0 {
            new_paths[j][0] == starts[j]
        } else {
            new_grid.settled(starts[j])
        } by {
            assert(grid.in_bounds(starts[j]));
            if j == k {
                assert(path[0] == starts[k]);
            }
        }
        assert forall|j: int, i: int|
            0 <= j < new_paths.len() && 0 <= i < new_paths[j].len() implies new_grid.in_bounds(
            #[trigger] new_paths[j][i],
        ) by {
            assert(grid.in_bounds(paths[j][i]));
        }
    } else {
        let top = path.last();
        let dir = choose|dir: Dir|
            #![trigger grid.can_carve(top, dir)]
            grid.can_carve(top, dir) && new_path == path.push(top.step(dir)) && new_grid
                == grid.remove_wall(top, dir);
        let next = top.step(dir);
        assert(grid.in_bounds(paths[k][path.len() - 1]));
        grid.lemma_remove_wall(top, dir);
        grid.lemma_remove_wall_extends(top, dir);
        assert(new_paths[k][new_path.len() - 1] == next);
        assert(new_paths[k][path.len() - 1] == top);
        assert forall|cell: Pos| new_grid.in_bounds(cell) implies on_some_path(new_paths, cell)
            || #[trigger] new_grid.settled(cell) || new_grid.mask(cell) == 0 by {
            if on_some_path(paths, cell) {
                let (j, i) = choose|j: int, i: int|
                    0 <= j < paths.len() && 0 <= i < paths[j].len() && #[trigger] paths[j][i] == cell;
                assert(new_paths[j][i] == cell);
            } else if grid.settled(cell) {
                lemma_stays_settled(grid, new_grid, cell);
            } else {
                grid.lemma_remove_wall_open(top, dir, cell, dir);
            }
        }
        assert forall|j: int| 0 <= j < new_paths.len() implies new_grid.in_bounds(
            #[trigger] starts[j],
        ) && if new_paths[j].len() > 0 {
            new_paths[j][0] == starts[j]
        } else {
            new_grid.settled(starts[j])
        } by {
            assert(grid.in_bounds(starts[j]));
            if j == k {
                assert(path[0] == starts[k]);
            } else if paths[j].len() == 0 {
                lemma_stays_settled(grid, new_grid, starts[j]);
            }
        }
        assert forall|j: int, i: int|
            0 <= j < new_paths.len() && 0 <= i < new_paths[j].len() implies new_grid.in_bounds(
            #[trigger] new_paths[j][i],
        ) by {
            if j == k && i == path.len() {
            } else {
                assert(grid.in_bounds(paths[j][i]));
            }
        }
    }
}

/// The paths after the first `done` cursors of a round have moved.
spec fn halfway(paths: Seq<Seq<Pos>>, new_paths: Seq<Seq<Pos>>, done: int) -> Seq<Seq<Pos>> {
    Seq::new(
        paths.len(),
        |k: int|
            if k < done {
                new_paths[k]
            } else {
                paths[k]
            },
    )
}

/// After the first cursors of a round the paths still account for the maze.
proof fn lemma_round_accounts(
    paths: Seq<Seq<Pos>>,
    starts: Seq<Pos>,
    new_paths: Seq<Seq<Pos>>,
    grids: Seq<GridModel>,
    done: int,
)
    requires
        grids[0].wf(),
        accounted(paths, starts, grids[0]),
        round_moved(paths, new_paths, grids),
        0 <= done <= paths.len(),
    ensures
        grids[done].wf(),
        accounted(halfway(paths, new_paths, done), starts, grids[done]),
    decreases done,
{
    if done == 0 {
        assert(halfway(paths, new_paths, 0) =~= paths);
    } else {
        let k = done - 1;
        lemma_round_accounts(paths, starts, new_paths, grids, k);
        let before = halfway(paths, new_paths, k);
        assert(before[k] == paths[k]);
        assert(cursor_moved(paths[k], grids[k], new_paths[k], grids[k + 1]));
        lemma_cursor_accounts(before, starts, grids[k], k, new_paths[k], grids[k + 1]);
        assert(halfway(paths, new_paths, done) =~= before.update(k, new_paths[k]));
    }
}

/// After a round the paths still account for the maze.
pub proof fn lemma_stepped_accounts(
    paths: Seq<Seq<Pos>>,
    starts: Seq<Pos>,
    grid: GridModel,
    new_paths: Seq<Seq<Pos>>,
    new_grid: GridModel,
)
    requires
        grid.wf(),
        accounted(paths, starts, grid),
        stepped(paths, grid, new_paths, new_grid),
    ensures
        accounted(new_paths, starts, new_grid),
{
    let grids = choose|grids: Seq<GridModel>|
        #![trigger round_moved(paths, new_paths, grids)]
        round_moved(paths, new_paths, grids) && grids[0] == grid && grids.last() == new_grid;
    lemma_round_accounts(paths, starts, new_paths, grids, paths.len() as int);
    assert(halfway(paths, new_paths, paths.len() as int) =~= new_paths);
}

/// Once every cursor has walked back off the grid the maze is complete: with no cursor
/// left on a path and the first start settled, no cell can be left with all of its walls,
/// so every cell is settled.
pub proof fn lemma_walked_out(paths: Seq<Seq<Pos>>, starts: Seq<Pos>, grid: GridModel)
    requires
        grid.wf(),
        accounted(paths, starts, grid),
        paths.len() > 0,
        forall|k: int| 0 <= k < paths.len() ==> (#[trigger] paths[k]).len() == 0,
    ensures
        grid.num_regions() == 1,
{
    let inside = |cell: Pos| grid.in_bounds(cell) && grid.settled(cell);
    let from = starts[0];
    assert(paths[0].len() == 0);
    assert(inside(from));
    assert forall|cell: Pos, dir: Dir|
        grid.in_bounds(cell) && inside(cell) && grid.in_bounds(#[trigger] cell.step(dir)) implies inside(
        cell.step(dir),
    ) by {
        let next = cell.step(dir);
        grid.lemma_settled(cell);
        assert(!grid.can_carve(cell, dir));
        if !grid.settled(next) {
            // A cell with all of its walls is in no region but its own.
            assert(!on_some_path(paths, next)) by {
                if on_some_path(paths, next) {
                    let (j, i) = choose|j: int, i: int|
                        0 <= j < paths.len() && 0 <= i < paths[j].len() && #[trigger] paths[j][i]
                            == next;
                    assert(paths[j].len() == 0);
                }
            }
            assert(grid.mask(next) == 0);
            grid.lemma_region(next, cell);
            let walk = choose|walk: Seq<Pos>| #[trigger]
                grid.is_walk(walk) && walk[0] == next && walk.last() == cell;
            grid.lemma_step_back(cell, dir);
            assert(grid.passage(walk[0], walk[0int + 1]));
            let out = choose|out: Dir|
                walk[0int + 1] == walk[0].step(out) && #[trigger] grid.is_open(walk[0], out);
            lemma_open_bit(0, out, out);
        }
    }
    assert forall|cell: Pos, dir: Dir| grid.in_bounds(cell) implies !#[trigger] grid.can_carve(
        cell,
        dir,
    ) by {
        grid.lemma_spread(inside, from, cell);
        grid.lemma_settled(cell);
    }
    grid.lemma_complete();
}

/// What a round does to the paths and the grid: there are grids in between that the
/// cursors moved through one after the other.
pub open spec fn stepped(
    paths: Seq<Seq<Pos>>,
    grid: GridModel,
    new_paths: Seq<Seq<Pos>>,
    new_grid: GridModel,
) -> bool {
    exists|grids: Seq<GridModel>|
        #![trigger round_moved(paths, new_paths, grids)]
        round_moved(paths, new_paths, grids) && grids[0] == grid && grids.last() == new_grid
}

/// The number of cursors that a maze is made with unless the caller says otherwise.
pub const NUM_CURSORS: usize = 4;

/// One round: every cursor moves once, in order.
pub fn step(state: &mut MazeState, grid: &mut Grid)
    requires
        old(grid).wf(),
        old(state).fits(old(grid)@),
    ensures
        final(grid).wf(),
        final(state).fits(final(grid)@),
        final(grid)@.extends(old(grid)@),
        stepped(old(state)@, old(grid)@, final(state)@, final(grid)@),
        final(state).starts() == old(state).starts(),
        old(state).accounts_for(old(grid)@) ==> final(state).accounts_for(final(grid)@),
{
    let ghost paths = state@;
    let ghost first = grid@;
    let ghost starts = state.starts();
    let ghost mut grids: Seq<GridModel> = seq![grid@];
    let n = state.cursors.len();
    let mut k: usize = 0;
    while k < n
        invariant
            grid.wf(),
            state.fits(grid@),
            grid@.extends(first),
            k <= n,
            n == paths.len(),
            state@.len() == n,
            state.starts() == starts,
            grids.len() == k + 1,
            grids[0] == first,
            grids.last() == grid@,
            forall|j: int| k <= j < n ==> state@[j] == paths[j],
            forall|j: int|
                0 <= j < k ==> cursor_moved(#[trigger] paths[j], grids[j], state@[j], grids[j + 1]),
        decreases n - k,
    {
        let ghost seen = state@;
        let ghost before = grid@;
        let ghost old_grids = grids;
        assert(state.cursors@[k as int].fits(grid@)) by {
            assert forall|i: int| 0 <= i < state.cursors@[k as int]@.len() implies grid@.in_bounds(
                #[trigger] state.cursors@[k as int]@[i],
            ) by {
                assert(state@[k as int][i] == state.cursors@[k as int]@[i]);
            }
        }
        let ghost starts_before = state.starts();
        state.cursors[k].step(grid, &mut state.rng);
        proof {
            assert(state.starts() =~= starts_before);
            grids = grids.push(grid@);
            grid@.lemma_extends_trans(before, first);
            assert(state@.len() == n);
            assert forall|j: int| 0 <= j < n && j != k implies state@[j] == seen[j] by {}
            assert(cursor_moved(paths[k as int], old_grids[k as int], state@[k as int], grids[k + 1]));
            assert forall|j: int| 0 <= j < k + 1 implies cursor_moved(
                #[trigger] paths[j],
                grids[j],
                state@[j],
                grids[j + 1],
            ) by {
                if j < k {
                    assert(cursor_moved(paths[j], old_grids[j], seen[j], old_grids[j + 1]));
                }
            }
            assert forall|j: int, i: int|
                0 <= j < state@.len() && 0 <= i < state@[j].len() implies grid@.in_bounds(
                #[trigger] state@[j][i],
            ) by {
                if j == k {
                    assert(state.cursors@[k as int]@[i] == state@[j][i]);
                } else {
                    assert(before.in_bounds(seen[j][i]));
                }
            }
        }
        k += 1;
    }
    proof {
        assert(round_moved(paths, state@, grids));
        if accounted(paths, starts, first) {
            lemma_stepped_accounts(paths, starts, first, state@, grid@);
        }
    }
}

/// What the next round does: nothing once the maze is complete, and a round otherwise.
pub open spec fn next_round(
    paths: Seq<Seq<Pos>>,
    grid: GridModel,
    new_paths: Seq<Seq<Pos>>,
    new_grid: GridModel,
) -> bool {
    if grid.num_regions() == 1 {
        new_paths == paths && new_grid == grid
    } else {
        stepped(paths, grid, new_paths, new_grid)
    }
}

/// What up to `rounds` rounds do: each round starts where the one before it ended, and once
/// the maze is complete nothing moves any more.
pub open spec fn generated(
    paths: Seq<Seq<Pos>>,
    grid: GridModel,
    new_paths: Seq<Seq<Pos>>,
    new_grid: GridModel,
    rounds: nat,
) -> bool
    decreases rounds,
{
    if rounds == 0 {
        new_paths == paths && new_grid == grid
    } else {
        exists|mid_paths: Seq<Seq<Pos>>, mid_grid: GridModel|
            #![trigger next_round(mid_paths, mid_grid, new_paths, new_grid)]
            generated(paths, grid, mid_paths, mid_grid, (rounds - 1) as nat) && next_round(
                mid_paths,
                mid_grid,
                new_paths,
                new_grid,
            )
    }
}

/// One more round after some rounds.
proof fn lemma_generated_next(
    paths: Seq<Seq<Pos>>,
    grid: GridModel,
    mid_paths: Seq<Seq<Pos>>,
    mid_grid: GridModel,
    new_paths: Seq<Seq<Pos>>,
    new_grid: GridModel,
    rounds: nat,
)
    requires
        rounds > 0,
        generated(paths, grid, mid_paths, mid_grid, (rounds - 1) as nat),
        next_round(mid_paths, mid_grid, new_paths, new_grid),
    ensures
        generated(paths, grid, new_paths, new_grid, rounds),
{
}

/// A complete maze stays as it is however many rounds follow.
pub proof fn lemma_generated_complete(
    paths: Seq<Seq<Pos>>,
    grid: GridModel,
    new_paths: Seq<Seq<Pos>>,
    new_grid: GridModel,
    rounds: nat,
    more: nat,
)
    requires
        generated(paths, grid, new_paths, new_grid, rounds),
        new_grid.num_regions() == 1,
        rounds <= more,
    ensures
        generated(paths, grid, new_paths, new_grid, more),
    decreases more - rounds,
{
    if rounds < more {
        lemma_generated_complete(paths, grid, new_paths, new_grid, rounds, (more - 1) as nat);
        lemma_generated_next(paths, grid, new_paths, new_grid, new_paths, new_grid, more);
    }
}

/// Up to `rounds` rounds, none once the maze is complete. The result says whether the maze
/// is complete in the end.
pub fn generate(state: &mut MazeState, grid: &mut Grid, rounds: usize) -> (done: bool)
    requires
        old(grid).wf(),
        old(state).fits(old(grid)@),
    ensures
        final(grid).wf(),
        final(state).fits(final(grid)@),
        final(grid)@.extends(old(grid)@),
        done == (final(grid)@.num_regions() == 1),
        generated(old(state)@, old(grid)@, final(state)@, final(grid)@, rounds as nat),
        old(grid)@.num_regions() == 1 ==> *final(grid) == *old(grid) && final(state)@ == old(
            state,
        )@,
        final(state).starts() == old(state).starts(),
        old(state).accounts_for(old(grid)@) ==> final(state).accounts_for(final(grid)@),
{
    let ghost first = grid@;
    let ghost paths = state@;
    let mut round: usize = 0;
    while round < rounds
        invariant
            grid.wf(),
            state.fits(grid@),
            grid@.extends(first),
            first == old(grid)@,
            paths == old(state)@,
            round <= rounds,
            generated(paths, first, state@, grid@, round as nat),
            first.num_regions() == 1 ==> *grid == *old(grid) && state@ == old(state)@,
            state.starts() == old(state).starts(),
            old(state).accounts_for(first) ==> state.accounts_for(grid@),
        decreases rounds - round,
    {
        if grid.is_complete() {
            proof {
                lemma_generated_complete(paths, first, state@, grid@, round as nat, rounds as nat);
            }
            return true;
        }
        let ghost before = grid@;
        let ghost before_paths = state@;
        step(state, grid);
        proof {
            grid@.lemma_extends_trans(before, first);
            lemma_generated_next(
                paths,
                first,
                before_paths,
                before,
                state@,
                grid@,
                (round + 1) as nat,
            );
        }
        round += 1;
    }
    grid.is_complete()
}

} // verus!
