use mazegen::grid::{AlreadyConnectedError, Dir, Grid, Pos};

const ALL: [Dir; 4] = [Dir::North, Dir::East, Dir::South, Dir::West];

#[test]
fn reverse_is_an_involution() {
    assert_eq!(Dir::North.reverse(), Dir::South);
    assert_eq!(Dir::South.reverse(), Dir::North);
    assert_eq!(Dir::East.reverse(), Dir::West);
    assert_eq!(Dir::West.reverse(), Dir::East);
    for dir in ALL {
        assert_eq!(dir.reverse().reverse(), dir);
    }
}

#[test]
fn directions_have_their_bits_and_offsets() {
    assert_eq!(Dir::North.bit(), 0b0001);
    assert_eq!(Dir::East.bit(), 0b0010);
    assert_eq!(Dir::South.bit(), 0b0100);
    assert_eq!(Dir::West.bit(), 0b1000);
    assert_eq!(Pos::from(Dir::North), Pos::new(0, 1));
    assert_eq!(Pos::from(Dir::East), Pos::new(1, 0));
    assert_eq!(Pos::from(Dir::South), Pos::new(0, -1));
    assert_eq!(Pos::from(Dir::West), Pos::new(-1, 0));
    assert_eq!(Pos::new(3, 5).step(Dir::North), Pos::new(3, 6));
    assert_eq!(Pos::new(3, 5).step(Dir::West), Pos::new(2, 5));
}

#[test]
fn new_grid_is_fully_walled() {
    let grid = Grid::new(3, 2);
    assert_eq!(grid.width(), 3);
    assert_eq!(grid.height(), 2);
    assert_eq!(grid.cells(), 6);
    assert_eq!(grid.regions().num_sets(), 6);
    assert!(!grid.is_complete());
    for y in 0..2 {
        for x in 0..3 {
            let pos = Pos::new(x, y);
            assert_eq!(grid.get_walls(pos), 0);
            assert!(!grid.is_visited(pos));
            assert_eq!(grid.region(pos), (y * 3 + x) as usize);
            assert_eq!(grid.index_of(pos), (y * 3 + x) as usize);
            assert_eq!(grid.cell_at((y * 3 + x) as usize), pos);
            for dir in ALL {
                assert!(grid.has_wall(pos, dir));
            }
        }
    }
}

#[test]
fn is_inside_tells_cells_from_other_positions() {
    let grid = Grid::new(3, 2);
    assert!(grid.is_inside(Pos::new(0, 0)));
    assert!(grid.is_inside(Pos::new(2, 1)));
    assert!(!grid.is_inside(Pos::new(3, 1)));
    assert!(!grid.is_inside(Pos::new(2, 2)));
    assert!(!grid.is_inside(Pos::new(-1, 0)));
    assert!(!grid.is_inside(Pos::new(0, -1)));
}

#[test]
fn remove_wall_opens_both_sides_and_joins() {
    let mut grid = Grid::new(3, 3);
    let pos = Pos::new(1, 1);
    let east = Pos::new(2, 1);
    assert_eq!(grid.remove_wall(pos, Dir::East), Ok(()));
    assert!(!grid.has_wall(pos, Dir::East));
    assert!(!grid.has_wall(east, Dir::West));
    assert_eq!(grid.get_walls(pos), 0b0010);
    assert_eq!(grid.get_walls(east), 0b1000);
    assert_eq!(grid.data(), &vec![0, 0, 0, 0, 0b0010, 0b1000, 0, 0, 0]);
    assert_eq!(grid.region(pos), grid.region(east));
    assert_eq!(grid.regions().num_sets(), 8);
    assert!(grid.is_visited(pos));
    assert!(grid.is_visited(east));
    assert!(!grid.is_visited(Pos::new(0, 0)));
    // The other walls of the two cells still stand.
    assert!(grid.has_wall(pos, Dir::North));
    assert!(grid.has_wall(pos, Dir::South));
    assert!(grid.has_wall(pos, Dir::West));
    assert!(grid.has_wall(east, Dir::North));
}

#[test]
fn remove_wall_again_fails_and_changes_nothing() {
    let mut grid = Grid::new(2, 2);
    let pos = Pos::new(0, 0);
    assert_eq!(grid.remove_wall(pos, Dir::North), Ok(()));
    let walls: Vec<u8> = (0..4).map(|i| grid.get_walls(grid.cell_at(i))).collect();
    let regions = grid.regions().clone();
    assert_eq!(grid.remove_wall(pos, Dir::North), Err(AlreadyConnectedError));
    assert_eq!(grid.remove_wall(Pos::new(0, 1), Dir::South), Err(AlreadyConnectedError));
    let after: Vec<u8> = (0..4).map(|i| grid.get_walls(grid.cell_at(i))).collect();
    assert_eq!(walls, after);
    assert_eq!(&regions, grid.regions());
    assert_eq!(grid.regions().num_sets(), 3);
}

#[test]
fn remove_wall_refuses_to_close_a_cycle() {
    let mut grid = Grid::new(2, 2);
    assert_eq!(grid.remove_wall(Pos::new(0, 0), Dir::East), Ok(()));
    assert_eq!(grid.remove_wall(Pos::new(1, 0), Dir::North), Ok(()));
    assert_eq!(grid.remove_wall(Pos::new(1, 1), Dir::West), Ok(()));
    assert!(grid.is_complete());
    // The last wall would close the square.
    assert_eq!(grid.remove_wall(Pos::new(0, 1), Dir::South), Err(AlreadyConnectedError));
    assert!(grid.has_wall(Pos::new(0, 1), Dir::South));
    assert!(grid.has_wall(Pos::new(0, 0), Dir::North));
}

#[test]
fn edge_walls_always_stand() {
    let mut grid = Grid::new(2, 2);
    grid.remove_wall(Pos::new(0, 0), Dir::East).unwrap();
    grid.remove_wall(Pos::new(0, 0), Dir::North).unwrap();
    grid.remove_wall(Pos::new(1, 0), Dir::North).unwrap();
    for i in 0..2 {
        assert!(grid.has_wall(Pos::new(i, 0), Dir::South));
        assert!(grid.has_wall(Pos::new(i, 1), Dir::North));
        assert!(grid.has_wall(Pos::new(0, i), Dir::West));
        assert!(grid.has_wall(Pos::new(1, i), Dir::East));
    }
}

#[test]
fn possible_moves_are_in_order_and_skip_edges_and_joined_cells() {
    let mut grid = Grid::new(3, 3);
    assert_eq!(
        grid.possible_moves(Pos::new(1, 1)),
        vec![Dir::North, Dir::East, Dir::South, Dir::West]
    );
    assert_eq!(grid.possible_moves(Pos::new(0, 0)), vec![Dir::North, Dir::East]);
    assert_eq!(grid.possible_moves(Pos::new(2, 2)), vec![Dir::South, Dir::West]);
    assert_eq!(grid.possible_moves(Pos::new(2, 0)), vec![Dir::North, Dir::West]);
    grid.remove_wall(Pos::new(1, 1), Dir::East).unwrap();
    assert_eq!(
        grid.possible_moves(Pos::new(1, 1)),
        vec![Dir::North, Dir::South, Dir::West]
    );
    grid.remove_wall(Pos::new(2, 1), Dir::South).unwrap();
    grid.remove_wall(Pos::new(2, 0), Dir::West).unwrap();
    // (1, 0) is joined to (1, 1) by way of (2, 1) and (2, 0), with the wall between them standing.
    assert!(grid.has_wall(Pos::new(1, 1), Dir::South));
    assert_eq!(grid.possible_moves(Pos::new(1, 1)), vec![Dir::North, Dir::West]);
    assert_eq!(grid.possible_moves(Pos::new(1, 0)), vec![Dir::West]);
}

#[test]
fn single_cell_grid_is_complete() {
    let grid = Grid::new(1, 1);
    assert!(grid.is_complete());
    assert_eq!(grid.possible_moves(Pos::new(0, 0)), Vec::<Dir>::new());
    for dir in ALL {
        assert!(grid.has_wall(Pos::new(0, 0), dir));
    }
}
