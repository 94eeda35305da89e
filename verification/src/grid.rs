//! The maze grid: one wall mask per cell, and the regions that open passages have joined.

pub mod model;
pub mod proofs;

use crate::disjoint_set::DisjointSet;
use crate::forest::joined;
use crate::grid::model::{row_major, GridModel};
use vstd::prelude::*;

verus! {

/// One of the four directions a cell has a wall in.
#[derive(Debug, Clone, Copy, PartialEq, Eq, Hash, Structural)]
pub enum Dir {
    North,
    East,
    South,
    West,
}

/// A cell position: `x` counts columns from the west edge, `y` rows from the south edge.
#[derive(Debug, Clone, Copy, PartialEq, Eq, Hash, Structural)]
pub struct Pos {
    pub x: i32,
    pub y: i32,
}

/// The two cells named are in one region already, so the wall between them stays.
#[derive(Debug, Clone, Copy, PartialEq, Eq, Structural)]
pub struct AlreadyConnectedError;

impl Dir {
    /// The bit that stands for this direction in a wall mask.
    pub open spec fn spec_bit(self) -> u8 {
        match self {
            Dir::North => 1,
            Dir::East => 2,
            Dir::South => 4,
            Dir::West => 8,
        }
    }

    /// The bit that stands for this direction in a wall mask.
    #[verifier::when_used_as_spec(spec_bit)]
    pub fn bit(self) -> (b: u8)
        ensures
            b == self.spec_bit(),
    {
        match self {
            Dir::North => 1,
            Dir::East => 2,
            Dir::South => 4,
            Dir::West => 8,
        }
    }

    /// The opposite direction.
    pub open spec fn spec_reverse(&self) -> Dir {
        match *self {
            Dir::North => Dir::South,
            Dir::South => Dir::North,
            Dir::West => Dir::East,
            Dir::East => Dir::West,
        }
    }

    /// The opposite direction.
    #[verifier::when_used_as_spec(spec_reverse)]
    pub fn reverse(&self) -> (r: Dir)
        ensures
            r == self.spec_reverse(),
    {
        match self {
            Dir::North => Dir::South,
            Dir::South => Dir::North,
            Dir::West => Dir::East,
            Dir::East => Dir::West,
        }
    }

    /// The step along `x` that this direction takes.
    pub open spec fn dx(self) -> int {
        match self {
            Dir::East => 1,
            Dir::West => -1,
            _ => 0,
        }
    }

    /// The step along `y` that this direction takes.
    pub open spec fn dy(self) -> int {
        match self {
            Dir::North => 1,
            Dir::South => -1,
            _ => 0,
        }
    }

    /// Reversing twice gives the direction back.
    pub proof fn lemma_reverse_involution(self)
        ensures
            self.reverse().reverse() == self,
            self.reverse() != self,
            self.reverse().dx() == -self.dx(),
            self.reverse().dy() == -self.dy(),
    {
    }
}

impl vstd::std_specs::convert::FromSpecImpl<Dir> for Pos {
    open spec fn obeys_from_spec() -> bool {
        true
    }

    open spec fn from_spec(dir: Dir) -> Pos {
        Pos { x: dir.dx() as i32, y: dir.dy() as i32 }
    }
}

impl From<Dir> for Pos {
    /// The unit offset of one step in the direction.
    fn from(dir: Dir) -> (offset: Pos) {
        match dir {
            Dir::North => Pos { x: 0, y: 1 },
            Dir::East => Pos { x: 1, y: 0 },
            Dir::South => Pos { x: 0, y: -1 },
            Dir::West => Pos { x: -1, y: 0 },
        }
    }
}

impl Pos {
    /// The position in column `x` and row `y`.
    pub fn new(x: i32, y: i32) -> (pos: Pos)
        ensures
            pos == (Pos { x, y }),
    {
        Pos { x, y }
    }

    /// The position one step away in the direction.
    pub open spec fn spec_step(self, dir: Dir) -> Pos {
        Pos { x: (self.x + dir.dx()) as i32, y: (self.y + dir.dy()) as i32 }
    }

    /// The position one step away in the direction.
    #[verifier::when_used_as_spec(spec_step)]
    pub fn step(self, dir: Dir) -> (next: Pos)
        requires
            i32::MIN < self.x < i32::MAX,
            i32::MIN < self.y < i32::MAX,
        ensures
            next == self.spec_step(dir),
    {
        let offset = Pos::from(dir);
        Pos { x: self.x + offset.x, y: self.y + offset.y }
    }
}

/// A rectangular maze under construction.
///
/// The view gives the size, the wall masks and the regions; see [`GridModel`].
#[derive(Debug, Clone)]
pub struct Grid {
    width: usize,
    height: usize,
    data: Vec<u8>,
    regions: DisjointSet,
}

impl View for Grid {
    type V = GridModel;

    closed spec fn view(&self) -> GridModel {
        GridModel {
            width: self.width as nat,
            height: self.height as nat,
            walls: self.data@,
            regions: self.regions@,
        }
    }
}

impl Grid {
    /// The regions of the grid as a disjoint set over the cells in row-major order.
    pub closed spec fn spec_regions(&self) -> DisjointSet {
        self.regions
    }

    /// The grid meets the invariant of [`GridModel::wf`], and its regions are a
    /// well-formed disjoint set whose forest the view shows.
    pub open spec fn wf(&self) -> bool {
        &&& self@.wf()
        &&& self.spec_regions().wf()
        &&& self.spec_regions()@ == self@.regions
    }

    /// A grid of `width` by `height` cells with every wall standing.
    pub fn new(width: usize, height: usize) -> (grid: Self)
        requires
            0 < width <= i32::MAX,
            0 < height <= i32::MAX,
            width * height <= usize::MAX,
        ensures
            grid.wf(),
            grid@ == GridModel::walled(width as nat, height as nat),
    {
        let cells = width * height;
        let mut data: Vec<u8> = Vec::new();
        let mut i: usize = 0;
        while i < cells
            invariant
                i <= cells,
                data@.len() == i,
                forall|k: int| 0 <= k < i ==> data@[k] == 0,
            decreases cells - i,
        {
            data.push(0);
            i += 1;
        }
        let grid = Self { width, height, data, regions: DisjointSet::new(cells) };
        proof {
            GridModel::lemma_walled(width as nat, height as nat);
            assert(grid@.walls =~= GridModel::walled(width as nat, height as nat).walls);
        }
        grid
    }

    /// The number of columns.
    pub fn width(&self) -> (width: usize)
        ensures
            width == self@.width,
    {
        self.width
    }

    /// The number of rows.
    pub fn height(&self) -> (height: usize)
        ensures
            height == self@.height,
    {
        self.height
    }

    /// The wall masks of the cells in row-major order.
    pub fn data(&self) -> (data: &Vec<u8>)
        ensures
            data@ == self@.walls,
    {
        &self.data
    }

    /// The regions of the grid.
    pub fn regions(&self) -> (regions: &DisjointSet)
        ensures
            *regions == self.spec_regions(),
    {
        &self.regions
    }

    /// The place of a cell in row-major order, also while the walls are being updated.
    fn index(&self, pos: Pos) -> (index: usize)
        requires
            self@.shaped(),
            self@.in_bounds(pos),
        ensures
            index == self@.index_of(pos),
            index < self@.cells(),
    {
        proof {
            reveal(row_major);
            self@.lemma_index(pos);
            let w = self.width as int;
            let y = pos.y as int;
            assert(0 <= y * w) by (nonlinear_arith)
                requires
                    0 <= y,
                    0 <= w,
            ;
        }
        (pos.y as usize) * self.width + pos.x as usize
    }

    /// The cell at a place in row-major order.
    pub fn cell_at(&self, index: usize) -> (pos: Pos)
        requires
            self.wf(),
            index < self@.cells(),
        ensures
            pos == self@.cell_at(index as int),
            self@.in_bounds(pos),
            self@.index_of(pos) == index,
    {
        proof {
            self@.lemma_cell_at(index as int);
        }
        Pos::new((index % self.width) as i32, (index / self.width) as i32)
    }

    /// The place of a cell in row-major order.
    pub fn index_of(&self, pos: Pos) -> (index: usize)
        requires
            self.wf(),
            self@.in_bounds(pos),
        ensures
            index == self@.index_of(pos),
            index < self@.cells(),
    {
        self.index(pos)
    }

    /// The number of cells.
    pub fn cells(&self) -> (cells: usize)
        requires
            self.wf(),
        ensures
            cells == self@.cells(),
    {
        self.width * self.height
    }

    /// Whether all cells are in one region, so that the maze is complete.
    pub fn is_complete(&self) -> (complete: bool)
        requires
            self.wf(),
        ensures
            complete == (self@.num_regions() == 1),
    {
        self.regions.num_sets() == 1
    }

    /// Whether the position names a cell of the grid.
    pub fn is_inside(&self, pos: Pos) -> (inside: bool)
        requires
            self.wf(),
        ensures
            inside == self@.in_bounds(pos),
    {
        pos.x >= 0 && (pos.x as usize) < self.width && pos.y >= 0 && (pos.y as usize)
            < self.height
    }

    /// The cell that names the region of `pos`.
    pub fn region(&self, pos: Pos) -> (region: usize)
        requires
            self.wf(),
            self@.in_bounds(pos),
        ensures
            region == self@.region(pos),
            region < self@.cells(),
    {
        self.regions.find(self.index(pos))
    }

    /// Joins the regions of two cells.
    fn join_regions(&mut self, pos: Pos, other: Pos)
        requires
            old(self)@.shaped(),
            old(self).regions.wf(),
            old(self)@.in_bounds(pos),
            old(self)@.in_bounds(other),
        ensures
            final(self).regions.wf(),
            final(self).regions@ == joined(
                old(self).regions@,
                old(self)@.index_of(pos),
                old(self)@.index_of(other),
            ),
            final(self).data == old(self).data,
            final(self).width == old(self).width,
            final(self).height == old(self).height,
    {
        let a = self.index(pos);
        let b = self.index(other);
        self.regions.join(a, b);
    }

    /// The wall mask of the cell: a bit is set where the wall has been removed.
    pub fn get_walls(&self, pos: Pos) -> (mask: u8)
        requires
            self.wf(),
            self@.in_bounds(pos),
        ensures
            mask == self@.mask(pos),
            mask < 16,
    {
        self.data[self.index(pos)]
    }

    /// The wall mask of the cell, to write to.
    fn get_walls_mut(&mut self, pos: Pos) -> (mask: &mut u8)
        requires
            old(self)@.shaped(),
            old(self)@.in_bounds(pos),
        ensures
            *mask == old(self)@.mask(pos),
            final(self).data@ == old(self).data@.update(old(self)@.index_of(pos), *final(mask)),
            final(self).regions == old(self).regions,
            final(self).width == old(self).width,
            final(self).height == old(self).height,
    {
        let index = self.index(pos);
        &mut self.data[index]
    }

    /// Whether the region of `pos` has more than one cell.
    pub fn is_visited(&self, pos: Pos) -> (visited: bool)
        requires
            self.wf(),
            self@.in_bounds(pos),
        ensures
            visited == self@.visited(pos),
    {
        !self.regions.is_singleton(self.index(pos))
    }

    /// Takes down the wall of `pos` toward `dir`, unless the two cells are connected
    /// already.
    pub fn remove_wall(&mut self, pos: Pos, dir: Dir) -> (result: Result<
        (),
        AlreadyConnectedError,
    >)
        requires
            old(self).wf(),
            old(self)@.in_bounds(pos),
            old(self)@.in_bounds(pos.step(dir)),
        ensures
            final(self).wf(),
            old(self)@.can_carve(pos, dir) ==> result is Ok && final(self)@ == old(
                self,
            )@.remove_wall(pos, dir),
            !old(self)@.can_carve(pos, dir) ==> result is Err && *final(self) == *old(self),
            result is Ok ==> {
                &&& !final(self)@.has_wall(pos, dir)
                &&& !final(self)@.has_wall(pos.step(dir), dir.reverse())
                &&& final(self)@.region(pos) == final(self)@.region(pos.step(dir))
                &&& final(self)@.num_regions() == old(self)@.num_regions() - 1
                &&& final(self)@.passages() == old(self)@.passages() + 1
            },
            final(self)@.extends(old(self)@),
    {
        let new_pos = pos.step(dir);
        if self.region(pos) == self.region(new_pos) {
            return Err(AlreadyConnectedError);
        }
        let ghost before = self@;
        proof {
            before.lemma_remove_wall(pos, dir);
            before.lemma_remove_wall_extends(pos, dir);
            before.lemma_index(pos);
            before.lemma_index(new_pos);
            before.lemma_step_back(pos, dir);
        }
        self.join_regions(pos, new_pos);
        *self.get_walls_mut(pos) |= dir.bit();
        *self.get_walls_mut(new_pos) |= dir.reverse().bit();
        proof {
            assert(self@.walls =~= before.remove_wall(pos, dir).walls);
            assert(self@ == before.remove_wall(pos, dir));
        }
        Ok(())
    }

    /// Whether a wall stands toward `dir`: one that was never removed, or the edge of the
    /// grid, whatever the mask says.
    pub fn has_wall(&self, pos: Pos, dir: Dir) -> (standing: bool)
        requires
            self.wf(),
            self@.in_bounds(pos),
        ensures
            standing == self@.has_wall(pos, dir),
            !self@.in_bounds(pos.step(dir)) ==> standing,
    {
        let at_edge = match dir {
            Dir::West => pos.x == 0,
            Dir::South => pos.y == 0,
            Dir::East => pos.x as usize == self.width - 1,
            Dir::North => pos.y as usize == self.height - 1,
        };
        (self.get_walls(pos) & dir.bit() == 0) || at_edge
    }

    /// Whether the wall toward `dir` may be removed.
    fn can_carve(&self, pos: Pos, dir: Dir) -> (possible: bool)
        requires
            self.wf(),
            self@.in_bounds(pos),
        ensures
            possible == self@.can_carve(pos, dir),
    {
        let next = pos.step(dir);
        self.is_inside(next) && self.region(next) != self.region(pos)
    }

    /// The directions in which a wall may be removed: those that lead to a cell of the
    /// grid in another region, in the order north, east, south, west.
    pub fn possible_moves(&self, pos: Pos) -> (moves: Vec<Dir>)
        requires
            self.wf(),
            self@.in_bounds(pos),
        ensures
            moves@ == self@.possible_moves(pos),
    {
        let mut moves: Vec<Dir> = Vec::new();
        if self.can_carve(pos, Dir::North) {
            moves.push(Dir::North);
        }
        if self.can_carve(pos, Dir::East) {
            moves.push(Dir::East);
        }
        if self.can_carve(pos, Dir::South) {
            moves.push(Dir::South);
        }
        if self.can_carve(pos, Dir::West) {
            moves.push(Dir::West);
        }
        proof {
            assert(moves@ =~= self@.possible_moves(pos));
        }
        moves
    }
}

} // verus!
