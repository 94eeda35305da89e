//! What holds of every maze under construction, and why taking down a wall between two
//! regions keeps it one.

use crate::forest::proofs::{
    lemma_join_same_root, lemma_join_unites, lemma_joined, lemma_single_root, lemma_singletons,
};
use crate::forest::root_of;
use crate::grid::model::{
    count_passages, open_bit, passages_at, row_major, same_passage, GridModel,
};
use crate::grid::{Dir, Pos};
use vstd::prelude::*;

verus! {

/// Setting the bit of one direction opens that direction and leaves the others alone.
pub proof fn lemma_open_bit(mask: u8, dir: Dir, other: Dir)
    ensures
        open_bit(mask | dir.spec_bit(), other) == (other == dir || open_bit(mask, other)),
        mask < 16 ==> (mask | dir.spec_bit()) < 16,
        !open_bit(0, other),
{
    let b = dir.spec_bit();
    let e = other.spec_bit();
    assert((mask | b) & e == (if b == e {
        e
    } else {
        mask & e
    })) by (bit_vector)
        requires
            b == 1 || b == 2 || b == 4 || b == 8,
            e == 1 || e == 2 || e == 4 || e == 8,
    ;
    assert(mask < 16 ==> (mask | b) < 16) by (bit_vector)
        requires
            b == 1 || b == 2 || b == 4 || b == 8,
    ;
    assert(0u8 & e == 0) by (bit_vector);
}

/// A new mask at one cell changes the count by what that cell adds or loses.
pub proof fn lemma_count_update(walls: Seq<u8>, i: int, mask: u8)
    requires
        0 <= i < walls.len(),
    ensures
        count_passages(walls.update(i, mask)) == count_passages(walls) - passages_at(walls[i])
            + passages_at(mask),
    decreases walls.len(),
{
    let updated = walls.update(i, mask);
    if i == walls.len() - 1 {
        assert(updated.drop_last() =~= walls.drop_last());
    } else {
        lemma_count_update(walls.drop_last(), i, mask);
        assert(updated.drop_last() =~= walls.drop_last().update(i, mask));
    }
}

/// Cells without a removed wall count no passage.
pub proof fn lemma_count_walled(walls: Seq<u8>)
    requires
        forall|i: int| 0 <= i < walls.len() ==> walls[i] == 0,
    ensures
        count_passages(walls) == 0,
    decreases walls.len(),
{
    if walls.len() > 0 {
        lemma_count_walled(walls.drop_last());
        lemma_open_bit(0, Dir::North, Dir::North);
        lemma_open_bit(0, Dir::North, Dir::East);
    }
}

impl GridModel {
    /// A cell's place in row-major order is below the number of cells, and a step moves it
    /// by one or by a row.
    pub proof fn lemma_index(self, pos: Pos)
        requires
            0 < self.width <= i32::MAX,
            0 < self.height <= i32::MAX,
            self.in_bounds(pos),
        ensures
            0 <= self.index_of(pos) < self.cells(),
            forall|dir: Dir|
                #![trigger pos.step(dir)]
                self.index_of(pos.step(dir)) == self.index_of(pos) + dir.dy() * self.width
                    + dir.dx(),
            self.index_of(pos.step(Dir::North)) == self.index_of(pos) + self.width,
            self.index_of(pos.step(Dir::South)) == self.index_of(pos) - self.width,
            self.index_of(pos.step(Dir::East)) == self.index_of(pos) + 1,
            self.index_of(pos.step(Dir::West)) == self.index_of(pos) - 1,
    {
        reveal(row_major);
        let w = self.width as int;
        let h = self.height as int;
        let x = pos.x as int;
        let y = pos.y as int;
        assert(0 <= y * w && (y + 1) * w <= h * w && (y + 1) * w == y * w + w && (y - 1) * w == y
            * w - w) by (nonlinear_arith)
            requires
                0 <= y < h,
                0 < w,
        ;
        assert(1 * w == w && (-1) * w == -w && 0 * w == 0) by (nonlinear_arith);
        assert forall|dir: Dir| #![trigger pos.step(dir)]
            self.index_of(pos.step(dir)) == self.index_of(pos) + dir.dy() * self.width
                + dir.dx() by {
            match dir {
                Dir::North => {},
                Dir::East => {},
                Dir::South => {},
                Dir::West => {},
            }
        }
    }

    /// Two cells of the grid at one place in row-major order are one cell.
    pub proof fn lemma_index_injective(self, a: Pos, b: Pos)
        requires
            0 < self.width <= i32::MAX,
            0 < self.height <= i32::MAX,
            self.in_bounds(a),
            self.in_bounds(b),
            self.index_of(a) == self.index_of(b),
        ensures
            a == b,
    {
        reveal(row_major);
        let w = self.width as int;
        let ax = a.x as int;
        let ay = a.y as int;
        let bx = b.x as int;
        let by = b.y as int;
        assert(ay == by) by (nonlinear_arith)
            requires
                0 <= ax < w,
                0 <= bx < w,
                ay * w + ax == by * w + bx,
        ;
    }

    /// Every place below the number of cells is that of a cell of the grid.
    pub proof fn lemma_cell_at(self, index: int)
        requires
            0 < self.width <= i32::MAX,
            0 < self.height <= i32::MAX,
            0 <= index < self.cells(),
        ensures
            self.in_bounds(self.cell_at(index)),
            self.index_of(self.cell_at(index)) == index,
    {
        reveal(row_major);
        let w = self.width as int;
        let h = self.height as int;
        vstd::arithmetic::div_mod::lemma_fundamental_div_mod(index, w);
        vstd::arithmetic::div_mod::lemma_mod_bound(index, w);
        let x = index % w;
        let y = index / w;
        assert(0 <= y < h && w * y == y * w) by (nonlinear_arith)
            requires
                0 <= x < w,
                0 < h,
                0 <= index < w * h,
                index == w * y + x,
        ;
    }

    /// The cell at the place of a cell is that cell.
    pub proof fn lemma_cell_at_index(self, pos: Pos)
        requires
            0 < self.width <= i32::MAX,
            0 < self.height <= i32::MAX,
            self.in_bounds(pos),
        ensures
            self.cell_at(self.index_of(pos)) == pos,
    {
        self.lemma_index(pos);
        self.lemma_cell_at(self.index_of(pos));
        self.lemma_index_injective(self.cell_at(self.index_of(pos)), pos);
    }

    /// A step and the step back end where they began, and a step leaves its cell.
    pub proof fn lemma_step_back(self, pos: Pos, dir: Dir)
        requires
            0 < self.width <= i32::MAX,
            0 < self.height <= i32::MAX,
            self.in_bounds(pos),
        ensures
            pos.step(dir).step(dir.reverse()) == pos,
            pos.step(dir) != pos,
            self.index_of(pos.step(dir)) != self.index_of(pos),
    {
        self.lemma_index(pos);
        match dir {
            Dir::North => {},
            Dir::East => {},
            Dir::South => {},
            Dir::West => {},
        }
    }

    /// The possible moves are the directions in which a wall may come down, at most four.
    pub proof fn lemma_possible_moves(self, pos: Pos)
        ensures
            forall|dir: Dir| self.possible_moves(pos).contains(dir) == self.can_carve(pos, dir),
            self.possible_moves(pos).len() <= 4,
            forall|k: int|
                0 <= k < self.possible_moves(pos).len() ==> self.can_carve(
                    pos,
                    #[trigger] self.possible_moves(pos)[k],
                ),
    {
        let moves = self.possible_moves(pos);
        let north: Seq<Dir> = if self.can_carve(pos, Dir::North) {
            seq![Dir::North]
        } else {
            seq![]
        };
        let east: Seq<Dir> = if self.can_carve(pos, Dir::East) {
            seq![Dir::East]
        } else {
            seq![]
        };
        let south: Seq<Dir> = if self.can_carve(pos, Dir::South) {
            seq![Dir::South]
        } else {
            seq![]
        };
        let west: Seq<Dir> = if self.can_carve(pos, Dir::West) {
            seq![Dir::West]
        } else {
            seq![]
        };
        assert(moves == north + east + south + west);
        assert forall|k: int| 0 <= k < moves.len() implies self.can_carve(pos, #[trigger] moves[k]) by {
            if k < north.len() {
                assert(moves[k] == north[k]);
            } else if k < north.len() + east.len() {
                assert(moves[k] == east[k - north.len()]);
            } else if k < north.len() + east.len() + south.len() {
                assert(moves[k] == south[k - north.len() - east.len()]);
            } else {
                assert(moves[k] == west[k - north.len() - east.len() - south.len()]);
            }
        }
        assert forall|dir: Dir| moves.contains(dir) == self.can_carve(pos, dir) by {
            if self.can_carve(pos, dir) {
                match dir {
                    Dir::North => {
                        assert(moves[0] == dir);
                    },
                    Dir::East => {
                        assert(moves[north.len() as int] == dir);
                    },
                    Dir::South => {
                        assert(moves[(north.len() + east.len()) as int] == dir);
                    },
                    Dir::West => {
                        assert(moves[(north.len() + east.len() + south.len()) as int] == dir);
                    },
                }
            }
            if moves.contains(dir) {
                let k = choose|k: int| 0 <= k < moves.len() && moves[k] == dir;
                assert(self.can_carve(pos, moves[k]));
            }
        }
    }

    /// What the invariant says of one removed wall.
    pub proof fn lemma_wall(self, pos: Pos, dir: Dir)
        requires
            self.walls_ok(),
            self.in_bounds(pos),
            self.is_open(pos, dir),
        ensures
            self.in_bounds(pos.step(dir)),
            self.is_open(pos.step(dir), dir.reverse()),
            self.region(pos.step(dir)) == self.region(pos),
    {
        reveal(GridModel::walls_ok);
    }

    /// A wall between two cells of the grid is down on both sides or on neither.
    pub proof fn lemma_two_sided(self, pos: Pos, dir: Dir)
        requires
            self.wf(),
            self.in_bounds(pos),
            self.in_bounds(pos.step(dir)),
        ensures
            self.is_open(pos, dir) == self.is_open(pos.step(dir), dir.reverse()),
            self.has_wall(pos, dir) == self.has_wall(pos.step(dir), dir.reverse()),
    {
        self.lemma_step_back(pos, dir);
        dir.lemma_reverse_involution();
        if self.is_open(pos, dir) {
            self.lemma_wall(pos, dir);
        }
        if self.is_open(pos.step(dir), dir.reverse()) {
            self.lemma_wall(pos.step(dir), dir.reverse());
        }
    }

    /// What the invariant says of two cells of one region.
    pub proof fn lemma_region(self, a: Pos, b: Pos)
        requires
            self.regions_ok(),
            self.in_bounds(a),
            self.in_bounds(b),
            self.region(a) == self.region(b),
        ensures
            self.connected(a, b),
    {
        reveal(GridModel::regions_ok);
    }

    /// The cells of a walk are cells of the grid in one region.
    pub proof fn lemma_walk_region(self, path: Seq<Pos>, k: int)
        requires
            self.walls_ok(),
            self.is_walk(path),
            0 <= k < path.len(),
        ensures
            self.in_bounds(path[k]),
            self.region(path[k]) == self.region(path[0]),
        decreases k,
    {
        if k > 0 {
            self.lemma_walk_region(path, k - 1);
            assert(self.passage(path[k - 1], path[k - 1 + 1]));
            let d = choose|d: Dir|
                path[k - 1 + 1] == path[k - 1].step(d) && #[trigger] self.is_open(path[k - 1], d);
            self.lemma_wall(path[k - 1], d);
        }
    }

    /// Two walks and a passage from the end of the first to the start of the second make
    /// one walk.
    pub proof fn lemma_walk_concat(self, first: Seq<Pos>, second: Seq<Pos>)
        requires
            self.is_walk(first),
            self.is_walk(second),
            self.passage(first.last(), second[0]),
        ensures
            self.is_walk(first + second),
            (first + second)[0] == first[0],
            (first + second).last() == second.last(),
    {
        let path = first + second;
        assert forall|i: int| 0 <= i < path.len() - 1 implies #[trigger] self.passage(
            path[i],
            path[i + 1],
        ) by {
            if i < first.len() - 1 {
                assert(self.passage(first[i], first[i + 1]));
            } else if i == first.len() - 1 {
            } else {
                let k = i - first.len();
                assert(self.passage(second[k], second[k + 1]));
            }
        }
    }

    /// A walk that ends where a second one starts goes on along the second.
    pub proof fn lemma_walk_join(self, first: Seq<Pos>, second: Seq<Pos>)
        requires
            self.is_walk(first),
            self.is_walk(second),
            first.last() == second[0],
        ensures
            self.is_walk(first + second.drop_first()),
            (first + second.drop_first())[0] == first[0],
            (first + second.drop_first()).last() == second.last(),
    {
        let rest = second.drop_first();
        let path = first + rest;
        assert forall|i: int| 0 <= i < path.len() - 1 implies #[trigger] self.passage(
            path[i],
            path[i + 1],
        ) by {
            if i < first.len() - 1 {
                assert(self.passage(first[i], first[i + 1]));
            } else {
                let k = i - first.len() + 1;
                assert(self.passage(second[k], second[k + 1]));
            }
        }
    }

    /// The fully walled grid meets the invariant: no passage, and a region for every cell.
    pub proof fn lemma_walled(width: nat, height: nat)
        requires
            0 < width <= i32::MAX,
            0 < height <= i32::MAX,
            width * height <= usize::MAX,
        ensures
            GridModel::walled(width, height).wf(),
            GridModel::walled(width, height).passages() == 0,
            GridModel::walled(width, height).num_regions() == width * height,
            forall|pos: Pos, dir: Dir|
                GridModel::walled(width, height).in_bounds(pos) ==> #[trigger] GridModel::walled(
                    width,
                    height,
                ).has_wall(pos, dir),
    {
        reveal(GridModel::walls_ok);
        reveal(GridModel::regions_ok);
        reveal(GridModel::acyclic);
        let grid = GridModel::walled(width, height);
        lemma_singletons(grid.cells());
        lemma_count_walled(grid.walls);
        assert forall|pos: Pos, dir: Dir| grid.in_bounds(pos) implies !#[trigger] grid.is_open(
            pos,
            dir,
        ) by {
            grid.lemma_index(pos);
            lemma_open_bit(0, dir, dir);
        }
        assert forall|path: Seq<Pos>| !#[trigger] grid.is_cycle(path) by {
            if grid.is_cycle(path) {
                assert(grid.passage(path[0], path[0int + 1]));
            }
        }
        assert forall|a: Pos, b: Pos|
            grid.in_bounds(a) && grid.in_bounds(b) && grid.region(a) == grid.region(
                b,
            ) implies #[trigger] grid.connected(a, b) by {
            grid.lemma_index(a);
            grid.lemma_index(b);
            grid.lemma_index_injective(a, b);
            let path = seq![a];
            assert(grid.is_walk(path));
            assert(path[0] == a && path.last() == b);
        }
    }

    /// After a wall has come down, the passages are the old ones and the new one, seen
    /// from both of its sides.
    pub proof fn lemma_remove_wall_open(self, pos: Pos, dir: Dir, cell: Pos, toward: Dir)
        requires
            self.shaped(),
            self.in_bounds(pos),
            self.in_bounds(pos.step(dir)),
            self.in_bounds(cell),
        ensures
            self.remove_wall(pos, dir).is_open(cell, toward) == (self.is_open(cell, toward) || (cell
                == pos && toward == dir) || (cell == pos.step(dir) && toward == dir.reverse())),
            self.remove_wall(pos, dir).mask(cell) == if cell == pos {
                self.mask(pos) | dir.bit()
            } else if cell == pos.step(dir) {
                self.mask(pos.step(dir)) | dir.reverse().bit()
            } else {
                self.mask(cell)
            },
    {
        let next = pos.step(dir);
        self.lemma_index(pos);
        self.lemma_index(next);
        self.lemma_index(cell);
        self.lemma_step_back(pos, dir);
        lemma_open_bit(self.mask(pos), dir, toward);
        lemma_open_bit(self.mask(next), dir.reverse(), toward);
        if cell != pos && self.index_of(cell) == self.index_of(pos) {
            self.lemma_index_injective(cell, pos);
        }
        if cell != next && self.index_of(cell) == self.index_of(next) {
            self.lemma_index_injective(cell, next);
        }
    }

    /// A walk stays a walk when a wall comes down.
    pub proof fn lemma_remove_wall_walk(self, pos: Pos, dir: Dir, path: Seq<Pos>)
        requires
            self.shaped(),
            self.walls_ok(),
            self.in_bounds(pos),
            self.in_bounds(pos.step(dir)),
            self.is_walk(path),
        ensures
            self.remove_wall(pos, dir).is_walk(path),
    {
        let after = self.remove_wall(pos, dir);
        assert forall|i: int| 0 <= i < path.len() - 1 implies #[trigger] after.passage(
            path[i],
            path[i + 1],
        ) by {
            assert(self.passage(path[i], path[i + 1]));
            let d = choose|d: Dir| path[i + 1] == path[i].step(d) && #[trigger] self.is_open(path[i], d);
            self.lemma_remove_wall_open(pos, dir, path[i], d);
            assert(after.is_open(path[i], d));
        }
    }

    /// The masks keep to the four direction bits when a wall comes down.
    proof fn lemma_remove_wall_masks(self, pos: Pos, dir: Dir)
        requires
            self.shaped(),
            self.masks_ok(),
            self.in_bounds(pos),
            self.in_bounds(pos.step(dir)),
        ensures
            self.remove_wall(pos, dir).masks_ok(),
    {
        let next = pos.step(dir);
        let after = self.remove_wall(pos, dir);
        self.lemma_index(pos);
        self.lemma_index(next);
        lemma_open_bit(self.mask(pos), dir, dir);
        lemma_open_bit(self.mask(next), dir.reverse(), dir);
        assert forall|k: int| 0 <= k < after.walls.len() implies #[trigger] after.walls[k] < 16 by {
            assert(self.walls[k] < 16);
            assert(self.walls[self.index_of(pos)] < 16);
            assert(self.walls[self.index_of(next)] < 16);
        }
    }

    /// After a wall has come down every passage, old or new, is open from both sides and
    /// joins two cells of one region.
    proof fn lemma_remove_wall_walls_at(self, pos: Pos, dir: Dir, cell: Pos, toward: Dir)
        requires
            self.shaped(),
            self.walls_ok(),
            self.in_bounds(pos),
            self.in_bounds(pos.step(dir)),
            self.in_bounds(cell),
            self.remove_wall(pos, dir).is_open(cell, toward),
        ensures
            self.in_bounds(cell.step(toward)),
            self.remove_wall(pos, dir).is_open(cell.step(toward), toward.reverse()),
            self.remove_wall(pos, dir).region(cell.step(toward)) == self.remove_wall(
                pos,
                dir,
            ).region(cell),
    {
        let next = pos.step(dir);
        let far = cell.step(toward);
        let i = self.index_of(pos);
        let j = self.index_of(next);
        self.lemma_index(pos);
        self.lemma_index(next);
        self.lemma_step_back(pos, dir);
        dir.lemma_reverse_involution();
        self.lemma_remove_wall_open(pos, dir, cell, toward);
        if self.is_open(cell, toward) {
            self.lemma_wall(cell, toward);
            self.lemma_remove_wall_open(pos, dir, far, toward.reverse());
            self.lemma_index(cell);
            self.lemma_index(far);
            lemma_join_same_root(self.regions, i, j, self.index_of(far), self.index_of(cell));
        } else {
            lemma_join_unites(self.regions, i, j);
            self.lemma_remove_wall_open(pos, dir, far, toward.reverse());
        }
    }

    /// The walls stay two-sided when a wall comes down.
    proof fn lemma_remove_wall_walls(self, pos: Pos, dir: Dir)
        requires
            self.shaped(),
            self.walls_ok(),
            self.in_bounds(pos),
            self.in_bounds(pos.step(dir)),
        ensures
            self.remove_wall(pos, dir).walls_ok(),
    {
        let after = self.remove_wall(pos, dir);
        assert forall|cell: Pos, toward: Dir|
            after.in_bounds(cell) && #[trigger] after.is_open(cell, toward) implies {
            &&& after.in_bounds(cell.step(toward))
            &&& after.is_open(cell.step(toward), toward.reverse())
            &&& after.region(cell.step(toward)) == after.region(cell)
        } by {
            self.lemma_remove_wall_walls_at(pos, dir, cell, toward);
        }
        reveal(GridModel::walls_ok);
    }

    /// Two stretches that were connected before a wall came down, and that end and start
    /// on the same cell or on the two sides of a passage, are one connected stretch after.
    proof fn lemma_bridge(self, pos: Pos, dir: Dir, a: Pos, m: Pos, n: Pos, b: Pos)
        requires
            self.shaped(),
            self.walls_ok(),
            self.in_bounds(pos),
            self.in_bounds(pos.step(dir)),
            self.connected(a, m),
            self.connected(n, b),
            m == n || self.remove_wall(pos, dir).passage(m, n),
        ensures
            self.remove_wall(pos, dir).connected(a, b),
    {
        let after = self.remove_wall(pos, dir);
        let first = choose|path: Seq<Pos>| #[trigger]
            self.is_walk(path) && path[0] == a && path.last() == m;
        let second = choose|path: Seq<Pos>| #[trigger]
            self.is_walk(path) && path[0] == n && path.last() == b;
        self.lemma_remove_wall_walk(pos, dir, first);
        self.lemma_remove_wall_walk(pos, dir, second);
        if m == n {
            after.lemma_walk_join(first, second);
            let path = first + second.drop_first();
            assert(after.is_walk(path) && path[0] == a && path.last() == b);
        } else {
            after.lemma_walk_concat(first, second);
            let path = first + second;
            assert(after.is_walk(path) && path[0] == a && path.last() == b);
        }
    }

    /// The cells of a region stay connected when a wall comes down, and the two regions
    /// that it joins are connected through it.
    proof fn lemma_remove_wall_regions(self, pos: Pos, dir: Dir)
        requires
            self.shaped(),
            self.walls_ok(),
            self.regions_ok(),
            self.in_bounds(pos),
            self.in_bounds(pos.step(dir)),
        ensures
            self.remove_wall(pos, dir).regions_ok(),
    {
        let next = pos.step(dir);
        let after = self.remove_wall(pos, dir);
        let i = self.index_of(pos);
        let j = self.index_of(next);
        self.lemma_index(pos);
        self.lemma_index(next);
        self.lemma_remove_wall_open(pos, dir, pos, dir);
        self.lemma_remove_wall_open(pos, dir, next, dir.reverse());
        self.lemma_step_back(pos, dir);
        assert(after.passage(pos, next));
        assert(after.passage(next, pos));
        assert forall|a: Pos, b: Pos|
            after.in_bounds(a) && after.in_bounds(b) && after.region(a) == after.region(
                b,
            ) implies #[trigger] after.connected(a, b) by {
            self.lemma_index(a);
            self.lemma_index(b);
            lemma_join_same_root(self.regions, i, j, self.index_of(a), self.index_of(b));
            if self.region(a) == self.region(b) {
                self.lemma_region(a, b);
                self.lemma_region(b, b);
                self.lemma_bridge(pos, dir, a, b, b, b);
            } else if self.region(a) == self.region(pos) {
                self.lemma_region(a, pos);
                self.lemma_region(next, b);
                self.lemma_bridge(pos, dir, a, pos, next, b);
            } else {
                self.lemma_region(a, next);
                self.lemma_region(pos, b);
                self.lemma_bridge(pos, dir, a, next, pos, b);
            }
        }
        reveal(GridModel::regions_ok);
    }

    /// A passage of the grid after a wall came down that is not the new one was there
    /// before.
    proof fn lemma_old_passage(self, pos: Pos, dir: Dir, a: Pos, b: Pos)
        requires
            self.shaped(),
            self.in_bounds(pos),
            self.in_bounds(pos.step(dir)),
            self.remove_wall(pos, dir).passage(a, b),
            !same_passage(a, b, pos, pos.step(dir)),
        ensures
            self.passage(a, b),
    {
        let after = self.remove_wall(pos, dir);
        let d = choose|d: Dir| b == a.step(d) && #[trigger] after.is_open(a, d);
        self.lemma_remove_wall_open(pos, dir, a, d);
        self.lemma_step_back(pos, dir);
        assert(self.is_open(a, d));
    }

    /// No round trip without a repeat leads through a wall that came down between two
    /// regions, and none gets by without it.
    proof fn lemma_no_new_cycle(self, pos: Pos, dir: Dir, path: Seq<Pos>)
        requires
            self.shaped(),
            self.walls_ok(),
            self.acyclic(),
            self.in_bounds(pos),
            self.can_carve(pos, dir),
        ensures
            !self.remove_wall(pos, dir).is_cycle(path),
    {
        let after = self.remove_wall(pos, dir);
        let next = pos.step(dir);
        let n = path.len() as int;
        if after.is_cycle(path) {
            if exists|i: int|
                0 <= i < n - 1 && same_passage(#[trigger] path[i], path[i + 1], pos, next) {
                let i = choose|i: int|
                    0 <= i < n - 1 && same_passage(#[trigger] path[i], path[i + 1], pos, next);
                // Without the new passage the rest of the trip leads from one side of it
                // to the other.
                let there = path.subrange(i + 1, n);
                let back = path.subrange(1, i + 1);
                let detour = there + back;
                assert forall|k: int| 0 <= k < detour.len() - 1 implies #[trigger] self.passage(
                    detour[k],
                    detour[k + 1],
                ) by {
                    if k < there.len() - 1 {
                        let j = i + 1 + k;
                        assert(detour[k] == path[j] && detour[k + 1] == path[j + 1]);
                        assert(after.passage(path[j], path[j + 1]));
                        assert(!same_passage(path[i], path[i + 1], path[j], path[j + 1]));
                        self.lemma_old_passage(pos, dir, path[j], path[j + 1]);
                    } else if k == there.len() - 1 {
                        assert(detour[k] == path[n - 1] && detour[k + 1] == path[1]);
                        assert(after.passage(path[0], path[0int + 1]));
                        assert(!same_passage(path[0], path[0int + 1], path[i], path[i + 1]));
                        self.lemma_old_passage(pos, dir, path[0], path[1]);
                    } else {
                        let j = k - there.len() + 1;
                        assert(detour[k] == path[j] && detour[k + 1] == path[j + 1]);
                        assert(after.passage(path[j], path[j + 1]));
                        assert(!same_passage(path[j], path[j + 1], path[i], path[i + 1]));
                        self.lemma_old_passage(pos, dir, path[j], path[j + 1]);
                    }
                }
                assert(detour[0] == path[i + 1]);
                assert(detour.last() == path[i]);
                assert(after.passage(path[i], path[i + 1]));
                self.lemma_step_back(pos, dir);
                assert(self.in_bounds(detour[0]));
                assert(self.is_walk(detour));
                self.lemma_walk_region(detour, detour.len() - 1);
            } else {
                assert forall|k: int| 0 <= k < n - 1 implies #[trigger] self.passage(
                    path[k],
                    path[k + 1],
                ) by {
                    assert(after.passage(path[k], path[k + 1]));
                    self.lemma_old_passage(pos, dir, path[k], path[k + 1]);
                }
                assert(self.is_cycle(path));
                reveal(GridModel::acyclic);
            }
        }
    }

    /// A wall that comes down between two regions closes no cycle.
    proof fn lemma_remove_wall_acyclic(self, pos: Pos, dir: Dir)
        requires
            self.shaped(),
            self.walls_ok(),
            self.acyclic(),
            self.in_bounds(pos),
            self.can_carve(pos, dir),
        ensures
            self.remove_wall(pos, dir).acyclic(),
    {
        let after = self.remove_wall(pos, dir);
        assert forall|path: Seq<Pos>| !#[trigger] after.is_cycle(path) by {
            self.lemma_no_new_cycle(pos, dir, path);
        }
        reveal(GridModel::acyclic);
    }

    /// A wall that comes down between two regions was standing, and it adds one passage.
    proof fn lemma_remove_wall_count(self, pos: Pos, dir: Dir)
        requires
            self.shaped(),
            self.walls_ok(),
            self.in_bounds(pos),
            self.can_carve(pos, dir),
        ensures
            self.remove_wall(pos, dir).passages() == self.passages() + 1,
            !self.is_open(pos, dir),
    {
        let next = pos.step(dir);
        let i = self.index_of(pos);
        let j = self.index_of(next);
        self.lemma_index(pos);
        self.lemma_index(next);
        self.lemma_step_back(pos, dir);
        dir.lemma_reverse_involution();
        // The passage is new on both sides, and it is counted on one of them.
        if self.is_open(pos, dir) {
            self.lemma_wall(pos, dir);
        }
        if self.is_open(next, dir.reverse()) {
            self.lemma_wall(next, dir.reverse());
        }
        let mid = self.walls.update(i, self.mask(pos) | dir.bit());
        lemma_count_update(self.walls, i, self.mask(pos) | dir.bit());
        lemma_count_update(mid, j, self.mask(next) | dir.reverse().bit());
        lemma_open_bit(self.mask(pos), dir, Dir::North);
        lemma_open_bit(self.mask(pos), dir, Dir::East);
        lemma_open_bit(self.mask(next), dir.reverse(), Dir::North);
        lemma_open_bit(self.mask(next), dir.reverse(), Dir::East);
    }

    /// Taking down a wall between two regions keeps the invariant, adds one passage and
    /// costs one region.
    pub proof fn lemma_remove_wall(self, pos: Pos, dir: Dir)
        requires
            self.wf(),
            self.in_bounds(pos),
            self.can_carve(pos, dir),
        ensures
            self.remove_wall(pos, dir).wf(),
            self.remove_wall(pos, dir).passages() == self.passages() + 1,
            self.remove_wall(pos, dir).num_regions() == self.num_regions() - 1,
            !self.is_open(pos, dir),
            !self.remove_wall(pos, dir).has_wall(pos, dir),
            !self.remove_wall(pos, dir).has_wall(pos.step(dir), dir.reverse()),
            self.remove_wall(pos, dir).region(pos) == self.remove_wall(pos, dir).region(
                pos.step(dir),
            ),
            !self.remove_wall(pos, dir).can_carve(pos, dir),
    {
        let next = pos.step(dir);
        let i = self.index_of(pos);
        let j = self.index_of(next);
        self.lemma_index(pos);
        self.lemma_index(next);
        self.lemma_step_back(pos, dir);
        lemma_joined(self.regions, i, j);
        lemma_join_unites(self.regions, i, j);
        self.lemma_remove_wall_open(pos, dir, pos, dir);
        self.lemma_remove_wall_open(pos, dir, next, dir.reverse());
        self.lemma_remove_wall_masks(pos, dir);
        self.lemma_remove_wall_walls(pos, dir);
        self.lemma_remove_wall_regions(pos, dir);
        self.lemma_remove_wall_acyclic(pos, dir);
        self.lemma_remove_wall_count(pos, dir);
    }

    /// A grid with one more wall taken down extends the grid before.
    pub proof fn lemma_remove_wall_extends(self, pos: Pos, dir: Dir)
        requires
            self.wf(),
            self.in_bounds(pos),
            self.in_bounds(pos.step(dir)),
        ensures
            self.remove_wall(pos, dir).extends(self),
    {
        let after = self.remove_wall(pos, dir);
        self.lemma_index(pos);
        self.lemma_index(pos.step(dir));
        assert forall|cell: Pos, toward: Dir|
            self.in_bounds(cell) && #[trigger] self.is_open(cell, toward) implies after.is_open(
            cell,
            toward,
        ) by {
            self.lemma_remove_wall_open(pos, dir, cell, toward);
        }
        assert forall|a: Pos, b: Pos|
            #![trigger after.region(a), after.region(b)]
            self.in_bounds(a) && self.in_bounds(b) && self.region(a) == self.region(
                b,
            ) implies after.region(a) == after.region(b) by {
            self.lemma_index(a);
            self.lemma_index(b);
            lemma_join_same_root(
                self.regions,
                self.index_of(pos),
                self.index_of(pos.step(dir)),
                self.index_of(a),
                self.index_of(b),
            );
        }
    }

    /// Every grid extends itself.
    pub proof fn lemma_extends_self(self)
        ensures
            self.extends(self),
    {
    }

    /// A wall that separates no two regions of a grid separates none of a grid that
    /// extends it.
    pub proof fn lemma_stays_joined(self, earlier: GridModel, pos: Pos, dir: Dir)
        requires
            self.extends(earlier),
            earlier.in_bounds(pos),
            !earlier.can_carve(pos, dir),
        ensures
            !self.can_carve(pos, dir),
    {
        if earlier.in_bounds(pos.step(dir)) {
            assert(earlier.region(pos.step(dir)) == earlier.region(pos));
            assert(self.region(pos.step(dir)) == self.region(pos));
        }
    }

    /// Extending is transitive.
    pub proof fn lemma_extends_trans(self, middle: GridModel, earlier: GridModel)
        requires
            self.extends(middle),
            middle.extends(earlier),
        ensures
            self.extends(earlier),
    {
        assert forall|cell: Pos, dir: Dir|
            earlier.in_bounds(cell) && #[trigger] earlier.is_open(cell, dir) implies self.is_open(
            cell,
            dir,
        ) by {
            assert(middle.is_open(cell, dir));
        }
        assert forall|a: Pos, b: Pos|
            #![trigger self.region(a), self.region(b)]
            earlier.in_bounds(a) && earlier.in_bounds(b) && earlier.region(a) == earlier.region(
                b,
            ) implies self.region(a) == self.region(b) by {
            assert(middle.region(a) == middle.region(b));
        }
    }

    /// A cell is settled exactly when it has no possible move.
    pub proof fn lemma_settled(self, pos: Pos)
        ensures
            self.settled(pos) == (self.possible_moves(pos).len() == 0),
            self.settled(pos) == (forall|dir: Dir| !self.can_carve(pos, dir)),
    {
        self.lemma_possible_moves(pos);
        let moves = self.possible_moves(pos);
        if moves.len() > 0 {
            assert(self.can_carve(pos, moves[0]));
            match moves[0] {
                Dir::North => {},
                Dir::East => {},
                Dir::South => {},
                Dir::West => {},
            }
        }
        if !self.settled(pos) {
            let dir = if self.can_carve(pos, Dir::North) {
                Dir::North
            } else if self.can_carve(pos, Dir::East) {
                Dir::East
            } else if self.can_carve(pos, Dir::South) {
                Dir::South
            } else {
                Dir::West
            };
            assert(moves.contains(dir));
        }
        if self.settled(pos) {
            assert forall|dir: Dir| !self.can_carve(pos, dir) by {
                match dir {
                    Dir::North => {},
                    Dir::East => {},
                    Dir::South => {},
                    Dir::West => {},
                }
            }
        }
    }

    /// What holds of one cell, and of every neighbour of a cell that it holds of, holds
    /// of every cell of the grid.
    pub proof fn lemma_spread(self, inside: spec_fn(Pos) -> bool, from: Pos, to: Pos)
        requires
            self.in_bounds(from),
            self.in_bounds(to),
            inside(from),
            forall|cell: Pos, dir: Dir|
                self.in_bounds(cell) && inside(cell) && self.in_bounds(#[trigger] cell.step(dir))
                    ==> inside(cell.step(dir)),
        ensures
            inside(to),
        decreases
                (if to.x >= from.x {
                    to.x - from.x
                } else {
                    from.x - to.x
                }) + (if to.y >= from.y {
                    to.y - from.y
                } else {
                    from.y - to.y
                }),
    {
        if to.x > from.x {
            let before = Pos { x: (to.x - 1) as i32, y: to.y };
            self.lemma_spread(inside, from, before);
            assert(before.step(Dir::East) == to);
        } else if to.x < from.x {
            let before = Pos { x: (to.x + 1) as i32, y: to.y };
            self.lemma_spread(inside, from, before);
            assert(before.step(Dir::West) == to);
        } else if to.y > from.y {
            let before = Pos { x: to.x, y: (to.y - 1) as i32 };
            self.lemma_spread(inside, from, before);
            assert(before.step(Dir::North) == to);
        } else if to.y < from.y {
            let before = Pos { x: to.x, y: (to.y + 1) as i32 };
            self.lemma_spread(inside, from, before);
            assert(before.step(Dir::South) == to);
        }
    }

    /// Where no wall between two cells may come down, every cell is in the region of the
    /// cell in the south-west corner.
    proof fn lemma_all_joined(self, pos: Pos)
        requires
            self.shaped(),
            self.in_bounds(pos),
            forall|cell: Pos, dir: Dir| self.in_bounds(cell) ==> !#[trigger] self.can_carve(cell, dir),
        ensures
            self.region(pos) == self.region(Pos { x: 0, y: 0 }),
        decreases pos.x + pos.y,
    {
        if pos.x > 0 {
            let west = Pos { x: (pos.x - 1) as i32, y: pos.y };
            self.lemma_all_joined(west);
            assert(west.step(Dir::East) == pos);
            assert(!self.can_carve(west, Dir::East));
        } else if pos.y > 0 {
            let south = Pos { x: pos.x, y: (pos.y - 1) as i32 };
            self.lemma_all_joined(south);
            assert(south.step(Dir::North) == pos);
            assert(!self.can_carve(south, Dir::North));
        }
    }

    /// The maze is complete, with all cells in one region, exactly when no wall between two
    /// cells may come down any more.
    pub proof fn lemma_complete(self)
        requires
            self.shaped(),
        ensures
            (self.num_regions() == 1) == (forall|cell: Pos, dir: Dir|
                self.in_bounds(cell) ==> !#[trigger] self.can_carve(cell, dir)),
    {
        let stuck = forall|cell: Pos, dir: Dir|
            self.in_bounds(cell) ==> !#[trigger] self.can_carve(cell, dir);
        let p = self.regions;
        assert(self.cells() > 0) by (nonlinear_arith)
            requires
                self.width > 0,
                self.height > 0,
                self.cells() == self.width * self.height,
        ;
        lemma_single_root(p);
        if stuck {
            assert forall|i: int, j: int| 0 <= i < p.len() && 0 <= j < p.len() implies root_of(
                p,
                i,
            ) == root_of(p, j) by {
                self.lemma_cell_at(i);
                self.lemma_cell_at(j);
                self.lemma_all_joined(self.cell_at(i));
                self.lemma_all_joined(self.cell_at(j));
            }
        }
        if self.num_regions() == 1 {
            assert forall|cell: Pos, dir: Dir| self.in_bounds(cell) implies !#[trigger] self.can_carve(
                cell,
                dir,
            ) by {
                if self.in_bounds(cell.step(dir)) {
                    self.lemma_index(cell);
                    self.lemma_index(cell.step(dir));
                }
            }
        }
    }

    /// While a maze is under construction its passages form a forest: they close no
    /// cycle, two cells are connected exactly when they are in one region, and there are
    /// as many passages as regions have been lost.
    pub proof fn lemma_forest(self, a: Pos, b: Pos)
        requires
            self.wf(),
            self.in_bounds(a),
            self.in_bounds(b),
        ensures
            self.acyclic(),
            self.connected(a, b) == (self.region(a) == self.region(b)),
            self.passages() == self.cells() - self.num_regions(),
    {
        if self.region(a) == self.region(b) {
            self.lemma_region(a, b);
        }
        if self.connected(a, b) {
            let path = choose|path: Seq<Pos>| #[trigger]
                self.is_walk(path) && path[0] == a && path.last() == b;
            self.lemma_walk_region(path, path.len() - 1);
        }
    }

    /// A complete maze is a spanning tree of the grid: its passages connect every cell to
    /// every other, they close no cycle, and there is one passage less than there are
    /// cells.
    pub proof fn lemma_spanning_tree(self)
        requires
            self.wf(),
            self.num_regions() == 1,
        ensures
            self.passages() == self.cells() - 1,
            self.acyclic(),
            forall|a: Pos, b: Pos|
                self.in_bounds(a) && self.in_bounds(b) ==> #[trigger] self.connected(a, b),
    {
        lemma_single_root(self.regions);
        assert forall|a: Pos, b: Pos|
            self.in_bounds(a) && self.in_bounds(b) implies #[trigger] self.connected(a, b) by {
            self.lemma_index(a);
            self.lemma_index(b);
            self.lemma_region(a, b);
        }
    }
}

} // verus!
