//! Randomized Kruskal: the walls between cells are tried in a random order, and each one
//! comes down if it still separates two regions.

use crate::grid::model::GridModel;
use crate::grid::{Dir, Grid, Pos};
use crate::random::{seeded, shuffle};
use vstd::prelude::*;

verus! {

/// The walls that are still to be tried. The last one is tried first.
#[derive(Debug, Clone)]
pub struct MazeState {
    queue: Vec<(Pos, Dir)>,
}

/// Whether a grid of the given size has a wall on the north or east side of `pos` that
/// separates it from another cell.
pub open spec fn is_candidate(width: nat, height: nat, pos: Pos, dir: Dir) -> bool {
    &&& 0 <= pos.x < width
    &&& 0 <= pos.y < height
    &&& match dir {
        Dir::North => pos.y < height - 1,
        Dir::East => pos.x < width - 1,
        _ => false,
    }
}

/// The candidates at one cell: north first, then east.
pub open spec fn cell_candidates(width: nat, height: nat, x: int, y: int) -> Seq<(Pos, Dir)> {
    let pos = Pos { x: x as i32, y: y as i32 };
    let north = if y < height - 1 {
        seq![(pos, Dir::North)]
    } else {
        seq![]
    };
    let east = if x < width - 1 {
        seq![(pos, Dir::East)]
    } else {
        seq![]
    };
    north + east
}

/// The candidates at the first `columns` cells of row `y`.
pub open spec fn row_candidates(width: nat, height: nat, y: int, columns: nat) -> Seq<(Pos, Dir)>
    decreases columns,
{
    if columns == 0 {
        seq![]
    } else {
        row_candidates(width, height, y, (columns - 1) as nat) + cell_candidates(
            width,
            height,
            columns - 1,
            y,
        )
    }
}

/// The candidates in the first `rows` rows.
pub open spec fn candidates_in(width: nat, height: nat, rows: nat) -> Seq<(Pos, Dir)>
    decreases rows,
{
    if rows == 0 {
        seq![]
    } else {
        candidates_in(width, height, (rows - 1) as nat) + row_candidates(
            width,
            height,
            rows - 1,
            width,
        )
    }
}

/// All candidates of a grid, cell by cell in row-major order.
pub open spec fn candidates(width: nat, height: nat) -> Seq<(Pos, Dir)> {
    candidates_in(width, height, height)
}

/// What the first cells of a row hold: the candidates at those cells, and as many as
/// counted.
pub proof fn lemma_row_candidates(width: nat, height: nat, y: int, columns: nat)
    requires
        0 < width <= i32::MAX,
        0 < height <= i32::MAX,
        0 <= y < height,
        columns <= width,
    ensures
        forall|pos: Pos, dir: Dir|
            #![trigger row_candidates(width, height, y, columns).contains((pos, dir))]
            row_candidates(width, height, y, columns).contains((pos, dir)) == (is_candidate(
                width,
                height,
                pos,
                dir,
            ) && pos.y == y && pos.x < columns),
        row_candidates(width, height, y, columns).len() == (if y < height - 1 {
            columns as int
        } else {
            0
        }) + (if columns == width {
            columns - 1
        } else {
            columns as int
        }),
    decreases columns,
{
    let row = row_candidates(width, height, y, columns);
    if columns == 0 {
        assert forall|pos: Pos, dir: Dir| #![trigger row.contains((pos, dir))]
            row.contains((pos, dir)) == (is_candidate(width, height, pos, dir) && pos.y == y
                && pos.x < columns) by {}
    } else {
        let before = row_candidates(width, height, y, (columns - 1) as nat);
        let here = cell_candidates(width, height, columns - 1, y);
        lemma_row_candidates(width, height, y, (columns - 1) as nat);
        let cell = Pos { x: (columns - 1) as i32, y: y as i32 };
        assert forall|pos: Pos, dir: Dir| #![trigger row.contains((pos, dir))]
            row.contains((pos, dir)) == (is_candidate(width, height, pos, dir) && pos.y == y
                && pos.x < columns) by {
            let item = (pos, dir);
            if row.contains(item) {
                let k = choose|k: int| 0 <= k < row.len() && row[k] == item;
                if k < before.len() {
                    assert(before[k] == item);
                    assert(before.contains(item));
                } else {
                    assert(here[k - before.len()] == item);
                }
            }
            if is_candidate(width, height, pos, dir) && pos.y == y && pos.x < columns {
                if pos.x < columns - 1 {
                    assert(before.contains(item));
                    let k = choose|k: int| 0 <= k < before.len() && before[k] == item;
                    assert(row[k] == item);
                } else {
                    assert(pos == cell);
                    if dir == Dir::North {
                        assert(here[0] == item);
                        assert(row[before.len() as int] == item);
                    } else {
                        assert(here[here.len() - 1] == item);
                        assert(row[row.len() - 1] == item);
                    }
                }
            }
        }
    }
}

/// What the first rows hold: the candidates in those rows, and as many as counted.
pub proof fn lemma_candidates_in(width: nat, height: nat, rows: nat)
    requires
        0 < width <= i32::MAX,
        0 < height <= i32::MAX,
        rows <= height,
    ensures
        forall|pos: Pos, dir: Dir|
            #![trigger candidates_in(width, height, rows).contains((pos, dir))]
            candidates_in(width, height, rows).contains((pos, dir)) == (is_candidate(
                width,
                height,
                pos,
                dir,
            ) && pos.y < rows),
        candidates_in(width, height, rows).len() == (if rows == height {
            width * (rows - 1)
        } else {
            (width * rows) as int
        }) + (width - 1) * rows,
    decreases rows,
{
    let all = candidates_in(width, height, rows);
    if rows == 0 {
        assert forall|pos: Pos, dir: Dir| #![trigger all.contains((pos, dir))]
            all.contains((pos, dir)) == (is_candidate(width, height, pos, dir) && pos.y < rows) by {}
        assert(width * 0 + (width - 1) * 0 == 0) by (nonlinear_arith);
    } else {
        let before = candidates_in(width, height, (rows - 1) as nat);
        let row = row_candidates(width, height, rows - 1, width);
        lemma_candidates_in(width, height, (rows - 1) as nat);
        lemma_row_candidates(width, height, rows - 1, width);
        assert forall|pos: Pos, dir: Dir| #![trigger all.contains((pos, dir))]
            all.contains((pos, dir)) == (is_candidate(width, height, pos, dir) && pos.y < rows) by {
            let item = (pos, dir);
            if all.contains(item) {
                let k = choose|k: int| 0 <= k < all.len() && all[k] == item;
                if k < before.len() {
                    assert(before[k] == item);
                    assert(before.contains(item));
                } else {
                    assert(row[k - before.len()] == item);
                    assert(row.contains(item));
                }
            }
            if is_candidate(width, height, pos, dir) && pos.y < rows {
                if pos.y < rows - 1 {
                    assert(before.contains(item));
                    let k = choose|k: int| 0 <= k < before.len() && before[k] == item;
                    assert(all[k] == item);
                } else {
                    assert(row.contains(item));
                    let k = choose|k: int| 0 <= k < row.len() && row[k] == item;
                    assert(all[before.len() + k] == item);
                }
            }
        }
        let w = width as int;
        let r = rows as int;
        assert(w * (r - 1) + (w - 1) * (r - 1) + (w - 1) == w * (r - 1) + (w - 1) * r
            && w * (r - 1) + (w - 1) * (r - 1) + w + (w - 1) == w * r + (w - 1) * r)
            by (nonlinear_arith);
    }
}

/// A grid of `width` by `height` cells has `width * (height - 1) + (width - 1) * height`
/// candidates: the walls between two of its cells, each named once, from its southern or
/// western side.
pub proof fn lemma_candidates(width: nat, height: nat)
    requires
        0 < width <= i32::MAX,
        0 < height <= i32::MAX,
    ensures
        candidates(width, height).len() == width * (height - 1) + (width - 1) * height,
        forall|pos: Pos, dir: Dir|
            #![trigger candidates(width, height).contains((pos, dir))]
            candidates(width, height).contains((pos, dir)) == is_candidate(width, height, pos, dir),
{
    lemma_candidates_in(width, height, height);
}

impl View for MazeState {
    type V = Seq<(Pos, Dir)>;

    closed spec fn view(&self) -> Seq<(Pos, Dir)> {
        self.queue@
    }
}

impl MazeState {
    /// Every wall in the queue is a candidate of the grid.
    pub open spec fn fits(&self, grid: GridModel) -> bool {
        forall|k: int|
            0 <= k < self@.len() ==> is_candidate(
                grid.width,
                grid.height,
                (#[trigger] self@[k]).0,
                self@[k].1,
            )
    }

    /// Every candidate of the grid that is not in the queue has been dealt with: it no
    /// longer separates two regions.
    pub open spec fn covers(&self, grid: GridModel) -> bool {
        forall|pos: Pos, dir: Dir|
            is_candidate(grid.width, grid.height, pos, dir) && !self@.contains((pos, dir))
                ==> !#[trigger] grid.can_carve(pos, dir)
    }

    /// The walls that are still to be tried, the next one last.
    pub fn queue(&self) -> (queue: &Vec<(Pos, Dir)>)
        ensures
            queue@ == self@,
    {
        &self.queue
    }

    /// The number of walls that are still to be tried.
    pub fn remaining(&self) -> (n: usize)
        ensures
            n == self@.len(),
    {
        self.queue.len()
    }
}

/// The candidates of a grid of the given size, cell by cell in row-major order.
pub fn all_candidates(width: usize, height: usize) -> (queue: Vec<(Pos, Dir)>)
    requires
        0 < width <= i32::MAX,
        0 < height <= i32::MAX,
    ensures
        queue@ == candidates(width as nat, height as nat),
{
    let mut queue: Vec<(Pos, Dir)> = Vec::new();
    let mut y: usize = 0;
    while y < height
        invariant
            0 < width <= i32::MAX,
            0 < height <= i32::MAX,
            y <= height,
            queue@ == candidates_in(width as nat, height as nat, y as nat),
        decreases height - y,
    {
        let ghost rows = queue@;
        let mut x: usize = 0;
        while x < width
            invariant
                0 < width <= i32::MAX,
                0 < height <= i32::MAX,
                y < height,
                x <= width,
                queue@ == rows + row_candidates(width as nat, height as nat, y as int, x as nat),
            decreases width - x,
        {
            let ghost before = queue@;
            let pos = Pos::new(x as i32, y as i32);
            if y < height - 1 {
                queue.push((pos, Dir::North));
            }
            if x < width - 1 {
                queue.push((pos, Dir::East));
            }
            proof {
                assert(queue@ =~= before + cell_candidates(
                    width as nat,
                    height as nat,
                    x as int,
                    y as int,
                ));
                assert(queue@ =~= rows + row_candidates(
                    width as nat,
                    height as nat,
                    y as int,
                    (x + 1) as nat,
                ));
            }
            x += 1;
        }
        y += 1;
    }
    queue
}

/// A queue that holds every candidate of a grid of the given size, in an order drawn from
/// the seed.
pub fn init(width: usize, height: usize, seed: u64) -> (state: MazeState)
    requires
        0 < width <= i32::MAX,
        0 < height <= i32::MAX,
    ensures
        state@.to_multiset() == candidates(width as nat, height as nat).to_multiset(),
        state@.len() == width * (height - 1) + (width - 1) * height,
        forall|pos: Pos, dir: Dir|
            #![trigger state@.contains((pos, dir))]
            state@.contains((pos, dir)) == is_candidate(width as nat, height as nat, pos, dir),
        forall|grid: GridModel|
            #![trigger state.fits(grid)]
            #![trigger state.covers(grid)]
            grid.width == width && grid.height == height ==> state.fits(grid) && state.covers(grid),
{
    let mut queue = all_candidates(width, height);
    let mut rng = seeded(seed);
    shuffle(&mut rng, &mut queue);
    proof {
        let all = candidates(width as nat, height as nat);
        lemma_candidates(width as nat, height as nat);
        vstd::seq_lib::to_multiset_len(queue@);
        vstd::seq_lib::to_multiset_len(all);
        assert forall|pos: Pos, dir: Dir| #![trigger queue@.contains((pos, dir))]
            queue@.contains((pos, dir)) == is_candidate(width as nat, height as nat, pos, dir) by {
            vstd::seq_lib::to_multiset_contains(queue@, (pos, dir));
            vstd::seq_lib::to_multiset_contains(all, (pos, dir));
        }
    }
    let state = MazeState { queue };
    proof {
        assert forall|k: int| 0 <= k < state@.len() implies is_candidate(
            width as nat,
            height as nat,
            (#[trigger] state@[k]).0,
            state@[k].1,
        ) by {
            assert(state@.contains((state@[k].0, state@[k].1)));
        }
    }
    state
}

/// What a step does to the queue and the grid. `rest` is what is left of the queue; the
/// walls behind it were tried, last first. All of them but the one right behind `rest`
/// separated no two regions any more. That one came down if `carved` says so. Otherwise it
/// separated no two regions either, the queue is used up, and the grid is as it was.
pub open spec fn stepped(
    queue: Seq<(Pos, Dir)>,
    grid: GridModel,
    rest: Seq<(Pos, Dir)>,
    new_grid: GridModel,
    carved: bool,
) -> bool {
    &&& rest.len() <= queue.len()
    &&& rest == queue.take(rest.len() as int)
    &&& forall|k: int|
        rest.len() < k < queue.len() ==> !grid.can_carve((#[trigger] queue[k]).0, queue[k].1)
    &&& if carved {
        let tried = queue[rest.len() as int];
        &&& rest.len() < queue.len()
        &&& grid.can_carve(tried.0, tried.1)
        &&& new_grid == grid.remove_wall(tried.0, tried.1)
    } else {
        &&& rest.len() == 0
        &&& queue.len() > 0 ==> !grid.can_carve(queue[0].0, queue[0].1)
        &&& new_grid == grid
    }
}

/// Tries the walls at the end of the queue until one comes down.
///
/// Walls that no longer separate two regions are dropped from the queue. The first one
/// that does is dropped too, and taken down: the result is then `true`. The result is
/// `false` when the queue ran out first, which leaves it empty and the grid as it was.
pub fn step(state: &mut MazeState, grid: &mut Grid) -> (carved: bool)
    requires
        old(grid).wf(),
        old(state).fits(old(grid)@),
    ensures
        final(grid).wf(),
        final(state).fits(final(grid)@),
        final(grid)@.extends(old(grid)@),
        stepped(old(state)@, old(grid)@, final(state)@, final(grid)@, carved),
        !carved ==> *final(grid) == *old(grid),
        old(state).covers(old(grid)@) ==> final(state).covers(final(grid)@),
        old(state).covers(old(grid)@) && !carved ==> final(grid)@.num_regions() == 1,
{
    let ghost queue = state@;
    let ghost before = grid@;
    let ghost grid_at_entry = *grid;
    let ghost state_at_entry = *state;
    proof {
        before.lemma_extends_self();
    }
    loop
        invariant
            grid.wf(),
            *grid == grid_at_entry,
            grid_at_entry == *old(grid),
            before == old(grid)@,
            queue == old(state)@,
            state_at_entry == *old(state),
            grid@ == before,
            state_at_entry@ == queue,
            state.fits(grid@),
            state@.len() <= queue.len(),
            state@ == queue.take(state@.len() as int),
            before.extends(before),
            forall|k: int|
                state@.len() <= k < queue.len() ==> !before.can_carve(
                    (#[trigger] queue[k]).0,
                    queue[k].1,
                ),
        decreases state@.len(),
    {
        let ghost n = state@.len() - 1;
        match state.queue.pop() {
            None => {
                proof {
                    if state_at_entry.covers(before) {
                        assert forall|pos: Pos, dir: Dir|
                            is_candidate(before.width, before.height, pos, dir) && !state@.contains(
                                (pos, dir),
                            ) implies !#[trigger] before.can_carve(pos, dir) by {
                            if queue.contains((pos, dir)) {
                                let k = choose|k: int| 0 <= k < queue.len() && queue[k] == (pos, dir);
                                assert(!before.can_carve(queue[k].0, queue[k].1));
                            }
                        }
                        state.lemma_exhausted(before);
                    }
                }
                return false;
            },
            Some((pos, dir)) => {
                proof {
                    assert(queue[n] == (pos, dir));
                    assert(queue.take(n + 1)[n] == (pos, dir));
                    assert(is_candidate(before.width, before.height, pos, dir));
                    assert(state@ =~= queue.take(n));
                    assert forall|k: int| 0 <= k < state@.len() implies is_candidate(
                        before.width,
                        before.height,
                        (#[trigger] state@[k]).0,
                        state@[k].1,
                    ) by {
                        assert(state@[k] == queue.take(n + 1)[k]);
                    }
                }
                if grid.remove_wall(pos, dir).is_ok() {
                    proof {
                        before.lemma_remove_wall(pos, dir);
                        before.lemma_remove_wall_extends(pos, dir);
                        if state_at_entry.covers(before) {
                            let after = grid@;
                            assert forall|cell: Pos, toward: Dir|
                                is_candidate(after.width, after.height, cell, toward)
                                    && !state@.contains((cell, toward)) implies !#[trigger] after
                                    .can_carve(cell, toward) by {
                                if (cell, toward) != (pos, dir) {
                                    if queue.contains((cell, toward)) {
                                        let k = choose|k: int|
                                            0 <= k < queue.len() && queue[k] == (cell, toward);
                                        if k < n {
                                            assert(state@[k] == (cell, toward));
                                        }
                                        assert(!before.can_carve(queue[k].0, queue[k].1));
                                    }
                                    assert(!before.can_carve(cell, toward));
                                    after.lemma_stays_joined(before, cell, toward);
                                }
                            }
                        }
                    }
                    return true;
                }
            },
        }
    }
}

impl MazeState {
    /// Once every candidate has been dealt with and the queue is empty, the maze is
    /// complete: all cells are in one region.
    pub proof fn lemma_exhausted(&self, grid: GridModel)
        requires
            grid.shaped(),
            self.covers(grid),
            self@.len() == 0,
        ensures
            grid.num_regions() == 1,
    {
        assert forall|cell: Pos, dir: Dir| grid.in_bounds(cell) implies !#[trigger] grid.can_carve(
            cell,
            dir,
        ) by {
            let next = cell.step(dir);
            if grid.in_bounds(next) {
                grid.lemma_step_back(cell, dir);
                match dir {
                    Dir::North => {
                        assert(is_candidate(grid.width, grid.height, cell, dir));
                    },
                    Dir::East => {
                        assert(is_candidate(grid.width, grid.height, cell, dir));
                    },
                    Dir::South => {
                        assert(is_candidate(grid.width, grid.height, next, Dir::North));
                        assert(!grid.can_carve(next, Dir::North));
                    },
                    Dir::West => {
                        assert(is_candidate(grid.width, grid.height, next, Dir::East));
                        assert(!grid.can_carve(next, Dir::East));
                    },
                }
            }
        }
        grid.lemma_complete();
    }
}

} // verus!
