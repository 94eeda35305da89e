//! The grid as its contracts see it: sizes, wall masks and regions as plain values, and
//! what it means for them to be a maze under construction.

use crate::forest::{component_of, is_forest, joined, root_of, roots, singletons};
use crate::grid::{Dir, Pos};
use vstd::prelude::*;

verus! {

/// Whether the wall toward `dir` has been removed in the mask.
pub open spec fn open_bit(mask: u8, dir: Dir) -> bool {
    mask & dir.spec_bit() != 0
}

/// The number of passages counted at a cell with this mask: those to the north and east.
pub open spec fn passages_at(mask: u8) -> nat {
    (if open_bit(mask, Dir::North) {
        1nat
    } else {
        0nat
    }) + (if open_bit(mask, Dir::East) {
        1nat
    } else {
        0nat
    })
}

/// The number of passages counted at the cells of `walls`.
pub open spec fn count_passages(walls: Seq<u8>) -> nat
    decreases walls.len(),
{
    if walls.len() == 0 {
        0
    } else {
        count_passages(walls.drop_last()) + passages_at(walls.last())
    }
}

/// Whether the step from `a` to `b` and the step from `c` to `d` go through one passage.
pub open spec fn same_passage(a: Pos, b: Pos, c: Pos, d: Pos) -> bool {
    (a == c && b == d) || (a == d && b == c)
}

/// The place of a cell in row-major order, in a grid of the given width.
#[verifier::opaque]
pub open spec fn row_major(width: nat, pos: Pos) -> int {
    pos.y * width + pos.x
}

/// What a grid is to its users: its size, the wall mask of every cell in row-major order,
/// and the parent map of the forest that holds the regions of the cells.
pub struct GridModel {
    pub width: nat,
    pub height: nat,
    pub walls: Seq<u8>,
    pub regions: Seq<int>,
}

impl GridModel {
    /// The number of cells.
    pub open spec fn cells(self) -> nat {
        self.width * self.height
    }

    /// Whether the position names a cell of the grid.
    pub open spec fn in_bounds(self, pos: Pos) -> bool {
        0 <= pos.x < self.width && 0 <= pos.y < self.height
    }

    /// The place of the cell in row-major order.
    pub open spec fn index_of(self, pos: Pos) -> int {
        row_major(self.width, pos)
    }

    /// The cell at a place in row-major order.
    pub open spec fn cell_at(self, index: int) -> Pos {
        Pos { x: (index % (self.width as int)) as i32, y: (index / (self.width as int)) as i32 }
    }

    /// The wall mask of the cell.
    pub open spec fn mask(self, pos: Pos) -> u8 {
        self.walls[self.index_of(pos)]
    }

    /// Whether the wall of the cell toward `dir` has been removed.
    pub open spec fn is_open(self, pos: Pos, dir: Dir) -> bool {
        open_bit(self.mask(pos), dir)
    }

    /// Whether a wall stands toward `dir`: one that was never removed, or the edge of the
    /// grid.
    pub open spec fn has_wall(self, pos: Pos, dir: Dir) -> bool {
        !self.is_open(pos, dir) || !self.in_bounds(pos.step(dir))
    }

    /// The cell that names the region of `pos`.
    pub open spec fn region(self, pos: Pos) -> int {
        root_of(self.regions, self.index_of(pos))
    }

    /// Whether the region of `pos` has more than one cell.
    pub open spec fn visited(self, pos: Pos) -> bool {
        component_of(self.regions, self.index_of(pos)).len() != 1
    }

    /// Whether the wall toward `dir` may be removed: the neighbour is a cell of the grid in
    /// another region.
    pub open spec fn can_carve(self, pos: Pos, dir: Dir) -> bool {
        self.in_bounds(pos.step(dir)) && self.region(pos.step(dir)) != self.region(pos)
    }

    /// Whether the cell is done with: no wall around it may be removed.
    pub open spec fn settled(self, pos: Pos) -> bool {
        &&& !self.can_carve(pos, Dir::North)
        &&& !self.can_carve(pos, Dir::East)
        &&& !self.can_carve(pos, Dir::South)
        &&& !self.can_carve(pos, Dir::West)
    }

    /// The directions in which a wall may be removed, in the order north, east, south, west.
    pub open spec fn possible_moves(self, pos: Pos) -> Seq<Dir> {
        let north = if self.can_carve(pos, Dir::North) {
            seq![Dir::North]
        } else {
            seq![]
        };
        let east = if self.can_carve(pos, Dir::East) {
            seq![Dir::East]
        } else {
            seq![]
        };
        let south = if self.can_carve(pos, Dir::South) {
            seq![Dir::South]
        } else {
            seq![]
        };
        let west = if self.can_carve(pos, Dir::West) {
            seq![Dir::West]
        } else {
            seq![]
        };
        north + east + south + west
    }

    /// The number of regions.
    pub open spec fn num_regions(self) -> nat {
        roots(self.regions).len()
    }

    /// The grid of the given size before any wall has come down.
    pub open spec fn walled(width: nat, height: nat) -> GridModel {
        GridModel {
            width,
            height,
            walls: Seq::new(width * height, |i: int| 0u8),
            regions: singletons(width * height),
        }
    }

    /// The grid after the wall of `pos` toward `dir` has come down: the bit of `dir` is set
    /// at `pos`, that of the opposite direction at the neighbour, and their regions are
    /// joined.
    pub open spec fn remove_wall(self, pos: Pos, dir: Dir) -> GridModel {
        let next = pos.step(dir);
        GridModel {
            width: self.width,
            height: self.height,
            walls: self.walls.update(self.index_of(pos), self.mask(pos) | dir.bit()).update(
                self.index_of(next),
                self.mask(next) | dir.reverse().bit(),
            ),
            regions: joined(self.regions, self.index_of(pos), self.index_of(next)),
        }
    }

    /// Whether this grid is `earlier` with some more walls taken down: the same size, every
    /// passage of `earlier` still open, and every region of `earlier` still in one piece.
    pub open spec fn extends(self, earlier: GridModel) -> bool {
        &&& self.width == earlier.width
        &&& self.height == earlier.height
        &&& forall|cell: Pos, dir: Dir|
            earlier.in_bounds(cell) && #[trigger] earlier.is_open(cell, dir) ==> self.is_open(cell, dir)
        &&& forall|a: Pos, b: Pos|
            #![trigger self.region(a), self.region(b)]
            earlier.in_bounds(a) && earlier.in_bounds(b) && earlier.region(a) == earlier.region(b)
                ==> self.region(a) == self.region(b)
    }

    /// Whether an open passage leads from `a` straight to `b`.
    pub open spec fn passage(self, a: Pos, b: Pos) -> bool {
        self.in_bounds(a) && exists|dir: Dir| b == a.step(dir) && #[trigger] self.is_open(a, dir)
    }

    /// Whether `path` starts at a cell of the grid and goes on through open passages.
    pub open spec fn is_walk(self, path: Seq<Pos>) -> bool {
        &&& path.len() > 0
        &&& self.in_bounds(path[0])
        &&& forall|i: int|
            0 <= i < path.len() - 1 ==> #[trigger] self.passage(path[i], path[i + 1])
    }

    /// Whether open passages lead from `a` to `b`.
    pub open spec fn connected(self, a: Pos, b: Pos) -> bool {
        exists|path: Seq<Pos>| #[trigger] self.is_walk(path) && path[0] == a && path.last() == b
    }

    /// Whether `path` is a round trip through open passages that uses none of them twice,
    /// in either direction.
    pub open spec fn is_cycle(self, path: Seq<Pos>) -> bool {
        &&& self.is_walk(path)
        &&& path.len() >= 2
        &&& path.last() == path[0]
        &&& forall|i: int, j: int|
            0 <= i < j < path.len() - 1 ==> !same_passage(
                #[trigger] path[i],
                path[i + 1],
                #[trigger] path[j],
                path[j + 1],
            )
    }

    /// The number of open passages, each counted at its southern or western end.
    pub open spec fn passages(self) -> nat {
        count_passages(self.walls)
    }

    /// The size is positive and fits the machine, and there is a mask and a region entry for
    /// every cell.
    pub open spec fn shaped(self) -> bool {
        &&& 0 < self.width <= i32::MAX
        &&& 0 < self.height <= i32::MAX
        &&& self.cells() <= usize::MAX
        &&& self.walls.len() == self.cells()
        &&& self.regions.len() == self.cells()
        &&& is_forest(self.regions)
    }

    /// Every mask has the four direction bits only.
    pub open spec fn masks_ok(self) -> bool {
        forall|i: int| 0 <= i < self.walls.len() ==> #[trigger] self.walls[i] < 16
    }

    /// A removed wall is removed on both of its sides, leads to a cell of the grid, and
    /// joins two cells of one region.
    #[verifier::opaque]
    pub open spec fn walls_ok(self) -> bool {
        forall|pos: Pos, dir: Dir|
            self.in_bounds(pos) && #[trigger] self.is_open(pos, dir) ==> {
                &&& self.in_bounds(pos.step(dir))
                &&& self.is_open(pos.step(dir), dir.reverse())
                &&& self.region(pos.step(dir)) == self.region(pos)
            }
    }

    /// The cells of one region are connected by open passages.
    #[verifier::opaque]
    pub open spec fn regions_ok(self) -> bool {
        forall|a: Pos, b: Pos|
            self.in_bounds(a) && self.in_bounds(b) && self.region(a) == self.region(b)
                ==> #[trigger] self.connected(a, b)
    }

    /// No round trip through open passages gets by without using one of them twice.
    #[verifier::opaque]
    pub open spec fn acyclic(self) -> bool {
        forall|path: Seq<Pos>| !#[trigger] self.is_cycle(path)
    }

    /// The invariant of a maze under construction. Walls come down on both sides at once
    /// and only between regions, so the cells of a region are exactly those that open
    /// passages connect, the passages close no cycle, and every passage has cost one
    /// region.
    pub open spec fn wf(self) -> bool {
        &&& self.shaped()
        &&& self.masks_ok()
        &&& self.walls_ok()
        &&& self.regions_ok()
        &&& self.acyclic()
        &&& self.passages() + self.num_regions() == self.cells()
    }
}

} // verus!
