use mazegen::grid::{Dir, Grid, Pos};
use mazegen::maze::backtracking::MazeCursor;
use mazegen::maze::{self, backtracking, kruskal, wfc, MazeState, MazeType, Session};

fn removed_walls(grid: &Grid) -> usize {
    let mut bits = 0;
    for i in 0..grid.cells() {
        bits += grid.get_walls(grid.cell_at(i)).count_ones() as usize;
    }
    assert_eq!(bits % 2, 0);
    bits / 2
}

fn assert_spanning_tree(grid: &Grid) {
    assert!(grid.is_complete());
    assert_eq!(grid.regions().num_sets(), 1);
    assert_eq!(removed_walls(grid), grid.cells() - 1);
    for i in 0..grid.cells() {
        let pos = grid.cell_at(i);
        assert_eq!(grid.possible_moves(pos), Vec::<Dir>::new());
        assert_eq!(grid.region(pos), grid.region(Pos::new(0, 0)));
        // Every removed wall is removed on both sides, and no edge wall is.
        for dir in [Dir::North, Dir::East, Dir::South, Dir::West] {
            let next = pos.step(dir);
            if grid.is_inside(next) {
                assert_eq!(grid.has_wall(pos, dir), grid.has_wall(next, dir.reverse()));
                assert_eq!(grid.has_wall(pos, dir), grid.get_walls(pos) & dir.bit() == 0);
            } else {
                assert!(grid.has_wall(pos, dir));
                assert_eq!(grid.get_walls(pos) & dir.bit(), 0);
            }
        }
    }
}

#[test]
fn backtracking_single_cursor_completes_4x4() {
    let mut grid = Grid::new(4, 4);
    let mut state = backtracking::setup(4, 4, 1, 7);
    assert_eq!(state.num_cursors(), 1);
    assert_eq!(state.path(0), &vec![Pos::new(0, 0)]);
    let mut rounds = 0;
    while !grid.is_complete() {
        backtracking::step(&mut state, &mut grid);
        rounds += 1;
        assert!(rounds <= 1000);
    }
    assert_eq!(grid.regions().num_sets(), 1);
    assert_eq!(removed_walls(&grid), 15);
    for i in 0..16 {
        assert_eq!(grid.possible_moves(grid.cell_at(i)), Vec::<Dir>::new());
    }
    assert_spanning_tree(&grid);
}

#[test]
fn backtracking_round_carves_or_steps_back() {
    let mut grid = Grid::new(2, 1);
    let mut state = backtracking::setup(2, 1, 1, 3);
    // The only move from (0, 0) is east.
    backtracking::step(&mut state, &mut grid);
    assert_eq!(state.path(0), &vec![Pos::new(0, 0), Pos::new(1, 0)]);
    assert!(!grid.has_wall(Pos::new(0, 0), Dir::East));
    assert!(grid.is_complete());
    // Nothing is left to carve: the cursor walks back, and then rests.
    backtracking::step(&mut state, &mut grid);
    assert_eq!(state.path(0), &vec![Pos::new(0, 0)]);
    backtracking::step(&mut state, &mut grid);
    assert_eq!(state.path(0), &Vec::<Pos>::new());
    backtracking::step(&mut state, &mut grid);
    assert_eq!(state.path(0), &Vec::<Pos>::new());
    assert_eq!(removed_walls(&grid), 1);
}

#[test]
fn backtracking_cursors_start_in_the_corners() {
    let state = backtracking::setup(5, 3, 4, 0);
    assert_eq!(state.num_cursors(), 4);
    assert_eq!(state.path(0), &vec![Pos::new(0, 0)]);
    assert_eq!(state.path(1), &vec![Pos::new(4, 2)]);
    assert_eq!(state.path(2), &vec![Pos::new(4, 0)]);
    assert_eq!(state.path(3), &vec![Pos::new(0, 2)]);
    assert_eq!(backtracking::setup(5, 3, 0, 0).num_cursors(), 0);
}

#[test]
fn backtracking_four_cursors_keep_the_maze_a_forest() {
    let mut grid = Grid::new(8, 8);
    let mut state = backtracking::setup(8, 8, backtracking::NUM_CURSORS, 11);
    for _ in 0..200 {
        backtracking::step(&mut state, &mut grid);
        assert_eq!(removed_walls(&grid) + grid.regions().num_sets(), 64);
    }
}

#[test]
fn backtracking_generate_stops_when_complete() {
    let mut grid = Grid::new(3, 3);
    let mut state = backtracking::setup(3, 3, 1, 5);
    assert!(!backtracking::generate(&mut state, &mut grid, 0));
    let mut ticks = 0;
    while !backtracking::generate(&mut state, &mut grid, 4) {
        ticks += 1;
        assert!(ticks <= 1000);
    }
    assert_spanning_tree(&grid);
    let path = state.path(0).clone();
    assert!(backtracking::generate(&mut state, &mut grid, 10));
    assert_eq!(state.path(0), &path);
    assert_eq!(removed_walls(&grid), 8);
}

#[test]
fn kruskal_queue_holds_every_inner_wall_once() {
    let state = kruskal::init(4, 3, 1);
    assert_eq!(state.remaining(), 4 * 2 + 3 * 3);
    let mut queue = state.queue().clone();
    queue.sort_by_key(|(pos, dir)| (pos.y, pos.x, dir.bit()));
    assert_eq!(queue, kruskal::all_candidates(4, 3));
    assert_eq!(kruskal::init(1, 1, 1).remaining(), 0);
    assert_eq!(kruskal::init(1, 5, 1).remaining(), 4);
    assert_eq!(kruskal::init(8, 8, 1).remaining(), 112);
}

#[test]
fn kruskal_candidates_come_in_row_major_order() {
    assert_eq!(
        kruskal::all_candidates(2, 2),
        vec![
            (Pos::new(0, 0), Dir::North),
            (Pos::new(0, 0), Dir::East),
            (Pos::new(1, 0), Dir::North),
            (Pos::new(0, 1), Dir::East),
        ]
    );
}

#[test]
fn kruskal_queue_is_shuffled() {
    let ordered = kruskal::all_candidates(8, 8);
    let first = kruskal::init(8, 8, 1);
    let second = kruskal::init(8, 8, 2);
    assert_ne!(first.queue(), &ordered);
    assert_ne!(second.queue(), &ordered);
    assert_ne!(first.queue(), second.queue());
    // The same seed gives the same order.
    assert_eq!(first.queue(), kruskal::init(8, 8, 1).queue());
}

#[test]
fn kruskal_carves_one_wall_per_step_until_the_queue_is_empty() {
    let mut grid = Grid::new(5, 4);
    let mut state = kruskal::init(5, 4, 42);
    let mut carved = 0;
    while kruskal::step(&mut state, &mut grid) {
        carved += 1;
        assert_eq!(removed_walls(&grid), carved);
        assert_eq!(grid.regions().num_sets(), 20 - carved);
    }
    assert_eq!(carved, 19);
    assert_eq!(state.remaining(), 0);
    assert_spanning_tree(&grid);
    // A step on the empty queue reports completion again.
    assert!(!kruskal::step(&mut state, &mut grid));
    assert_eq!(removed_walls(&grid), 19);
}

#[test]
fn kruskal_step_takes_the_last_wall_that_still_separates() {
    let mut grid = Grid::new(2, 2);
    let mut state = kruskal::init(2, 2, 9);
    let queue = state.queue().clone();
    assert!(kruskal::step(&mut state, &mut grid));
    let (pos, dir) = queue[3];
    assert!(!grid.has_wall(pos, dir));
    assert_eq!(state.queue(), &queue[..3].to_vec());
    assert_eq!(removed_walls(&grid), 1);
}

#[test]
fn wfc_starts_with_no_cell_fixed() {
    let state = wfc::init(3, 2, 0);
    assert_eq!(state.fixed(), &vec![false; 6]);
}

#[test]
fn wfc_choices_are_the_unfixed_cells_with_fewest_moves() {
    let mut grid = Grid::new(3, 3);
    let mut state = wfc::init(3, 3, 0);
    // The corners have two moves, the other cells three or four.
    assert_eq!(wfc::find_choices(&state, &grid), vec![0, 2, 6, 8]);
    // No flip comes up: the corner is fixed and no wall is removed.
    let moves = grid.possible_moves(Pos::new(0, 0));
    wfc::resolve(&mut state, &mut grid, 0, &moves, &vec![false, false]);
    assert_eq!(removed_walls(&grid), 0);
    assert_eq!(wfc::find_choices(&state, &grid), vec![2, 6, 8]);
    // Both flips come up at the corner (2, 0).
    let moves = grid.possible_moves(Pos::new(2, 0));
    assert_eq!(moves, vec![Dir::North, Dir::West]);
    wfc::resolve(&mut state, &mut grid, 2, &moves, &vec![true, true]);
    assert!(!grid.has_wall(Pos::new(2, 0), Dir::North));
    assert!(!grid.has_wall(Pos::new(2, 0), Dir::West));
    assert_eq!(removed_walls(&grid), 2);
    assert_eq!(
        state.fixed(),
        &vec![true, false, true, false, false, false, false, false, false]
    );
    // (0, 0) has one move left but is fixed; (1, 0) and (2, 1) have two, like the corners.
    assert_eq!(wfc::find_choices(&state, &grid), vec![1, 5, 6, 8]);
}

#[test]
fn wfc_resolve_skips_a_wall_that_an_earlier_flip_made_redundant() {
    let mut grid = Grid::new(2, 2);
    let mut state = wfc::init(2, 2, 0);
    grid.remove_wall(Pos::new(1, 0), Dir::North).unwrap();
    grid.remove_wall(Pos::new(1, 1), Dir::West).unwrap();
    // From (0, 0) both moves lead into the same region.
    let moves = grid.possible_moves(Pos::new(0, 0));
    assert_eq!(moves, vec![Dir::North, Dir::East]);
    wfc::resolve(&mut state, &mut grid, 0, &moves, &vec![true, true]);
    assert!(!grid.has_wall(Pos::new(0, 0), Dir::North));
    assert!(grid.has_wall(Pos::new(0, 0), Dir::East));
    assert_spanning_tree(&grid);
}

#[test]
fn wfc_reset_clears_every_flag() {
    let mut grid = Grid::new(2, 1);
    let mut state = wfc::init(2, 1, 0);
    wfc::resolve(&mut state, &mut grid, 0, &vec![Dir::East], &vec![false]);
    wfc::resolve(&mut state, &mut grid, 1, &vec![Dir::West], &vec![false]);
    assert_eq!(state.fixed(), &vec![true, true]);
    assert_eq!(wfc::find_choices(&state, &grid), Vec::<usize>::new());
    // No cell is left to choose: the step resets.
    wfc::step(&mut state, &mut grid);
    assert_eq!(state.fixed(), &vec![false, false]);
    assert_eq!(removed_walls(&grid), 0);
    assert_eq!(wfc::find_choices(&state, &grid), vec![0, 1]);
}

#[test]
fn wfc_recovers_from_a_reset_on_3x3() {
    let mut resets = 0;
    for seed in 0..20 {
        let mut grid = Grid::new(3, 3);
        let mut state = wfc::init(3, 3, seed);
        let mut steps = 0;
        while !grid.is_complete() {
            let stalled = wfc::find_choices(&state, &grid).is_empty();
            let walls = removed_walls(&grid);
            wfc::step(&mut state, &mut grid);
            if stalled {
                // The reset leaves the walls alone, clears the flags, and leaves a cell to
                // resolve.
                resets += 1;
                assert!(grid.regions().num_sets() > 1);
                assert_eq!(removed_walls(&grid), walls);
                assert_eq!(state.fixed(), &vec![false; 9]);
                assert!(!wfc::find_choices(&state, &grid).is_empty());
            } else {
                assert_eq!(state.fixed().iter().filter(|fixed| **fixed).count() > 0, true);
                assert!(removed_walls(&grid) >= walls);
            }
            assert_eq!(removed_walls(&grid) + grid.regions().num_sets(), 9);
            steps += 1;
            assert!(steps <= 100_000);
        }
        assert_spanning_tree(&grid);
    }
    assert!(resets > 0);
}

#[test]
fn each_generator_completes_through_the_driver() {
    for maze_type in [MazeType::Backtracking, MazeType::Kruskal, MazeType::Wfc] {
        let mut grid = Grid::new(6, 5);
        let mut state = maze::setup(maze_type, 6, 5, 2024);
        match (&state, maze_type) {
            (MazeState::Backtracking(_), MazeType::Backtracking) => {}
            (MazeState::Kruskal(_), MazeType::Kruskal) => {}
            (MazeState::Wfc(_), MazeType::Wfc) => {}
            _ => panic!("the state is not that of the generator asked for"),
        }
        let mut ticks = 0;
        while !maze::generate(&mut state, &mut grid) {
            assert_eq!(removed_walls(&grid) + grid.regions().num_sets(), 30);
            ticks += 1;
            assert!(ticks <= 1_000_000);
        }
        assert_spanning_tree(&grid);
        // Once the maze is complete a tick changes nothing.
        let walls = removed_walls(&grid);
        assert!(maze::generate(&mut state, &mut grid));
        assert_eq!(removed_walls(&grid), walls);
    }
}

#[test]
fn default_generator_is_backtracking() {
    assert_eq!(MazeType::default(), MazeType::Backtracking);
}

#[test]
fn cover_lifts_over_visited_cells_and_drops_over_the_rest() {
    let mut grid = Grid::new(2, 2);
    grid.remove_wall(Pos::new(0, 0), Dir::East).unwrap();
    let mut cover = vec![5, 63, 7, 64];
    maze::update_cover(&grid, &mut cover);
    assert_eq!(cover, vec![6, 64, 0, 0]);
    maze::update_cover(&grid, &mut cover);
    assert_eq!(cover, vec![7, 64, 0, 0]);
    grid.remove_wall(Pos::new(1, 1), Dir::South).unwrap();
    let mut cover = vec![64, 200, 0, 0];
    maze::update_cover(&grid, &mut cover);
    assert_eq!(cover, vec![64, 64, 0, 1]);
}

#[test]
fn overlay_shows_the_low_byte_of_each_region() {
    let mut grid = Grid::new(20, 20);
    let mut overlay = vec![0u8; 400];
    assert_eq!(maze::update_overlay(&grid, &mut overlay), (400, 0));
    for i in 0..400 {
        assert_eq!(overlay[i], (i % 256) as u8);
    }
    grid.remove_wall(Pos::new(19, 19), Dir::West).unwrap();
    grid.remove_wall(Pos::new(0, 0), Dir::North).unwrap();
    grid.remove_wall(Pos::new(0, 1), Dir::East).unwrap();
    assert_eq!(maze::update_overlay(&grid, &mut overlay), (397, 1));
    assert_eq!(overlay[399], (399 % 256) as u8);
    assert_eq!(overlay[398], (399 % 256) as u8);
    assert_eq!(overlay[0], 0);
    assert_eq!(overlay[20], 0);
    assert_eq!(overlay[21], 0);
    assert_eq!(overlay[1], 1);
}

#[test]
fn session_runs_each_generator_to_a_spanning_tree() {
    for maze_type in [MazeType::Backtracking, MazeType::Kruskal, MazeType::Wfc] {
        let mut session = Session::new(maze_type, 7, 4, 99).unwrap();
        assert_eq!(session.grid().regions().num_sets(), 28);
        assert_eq!(removed_walls(session.grid()), 0);
        let mut ticks = 0;
        while !session.tick() {
            ticks += 1;
            assert!(ticks <= 1_000_000);
        }
        // A round of four cursors and a resolved cell may take down several walls; a step
        // of the queue takes down one.
        assert!(ticks >= 7);
        if maze_type == MazeType::Kruskal {
            assert_eq!(ticks, 27);
        }
        assert_spanning_tree(session.grid());
        assert!(session.tick());
        match (session.state(), maze_type) {
            (MazeState::Backtracking(_), MazeType::Backtracking) => {}
            (MazeState::Kruskal(state), MazeType::Kruskal) => assert!(state.remaining() <= 45),
            (MazeState::Wfc(state), MazeType::Wfc) => assert_eq!(state.fixed().len(), 28),
            _ => panic!("the state is not that of the generator asked for"),
        }
    }
}

#[test]
fn session_needs_a_size_that_a_grid_can_have() {
    assert!(Session::new(MazeType::Kruskal, 0, 4, 1).is_none());
    assert!(Session::new(MazeType::Kruskal, 4, 0, 1).is_none());
    assert!(Session::new(MazeType::Wfc, i32::MAX as usize + 1, 1, 1).is_none());
    assert!(Session::new(MazeType::Wfc, 1, i32::MAX as usize + 1, 1).is_none());
    assert!(Session::new(MazeType::Backtracking, usize::MAX, usize::MAX, 1).is_none());
    assert!(Session::new(MazeType::Backtracking, 1, 1, 1).is_some());
}

#[test]
fn state_steps_whichever_generator_it_holds() {
    let mut grid = Grid::new(3, 3);
    let mut state = maze::setup(MazeType::Kruskal, 3, 3, 5);
    state.step(&mut grid);
    assert_eq!(removed_walls(&grid), 1);
    let mut state = maze::setup(MazeType::Backtracking, 3, 3, 5);
    state.step(&mut grid);
    assert!(removed_walls(&grid) >= 2);
    assert_eq!(removed_walls(&grid) + grid.regions().num_sets(), 9);
}

#[test]
fn cursor_advances_through_a_wall_and_retreats() {
    let mut grid = Grid::new(3, 2);
    let mut cursor = MazeCursor::new(Pos::new(1, 0));
    assert_eq!(cursor.position(), Some(Pos::new(1, 0)));
    cursor.advance(&mut grid, Dir::North);
    assert_eq!(cursor.position(), Some(Pos::new(1, 1)));
    assert!(!grid.has_wall(Pos::new(1, 0), Dir::North));
    assert!(!grid.has_wall(Pos::new(1, 1), Dir::South));
    cursor.advance(&mut grid, Dir::West);
    assert_eq!(cursor.position(), Some(Pos::new(0, 1)));
    assert_eq!(removed_walls(&grid), 2);
    cursor.retreat();
    assert_eq!(cursor.position(), Some(Pos::new(1, 1)));
    cursor.retreat();
    cursor.retreat();
    assert_eq!(cursor.position(), None);
    assert_eq!(removed_walls(&grid), 2);
}

#[test]
fn backtracking_cursors_walk_out_of_a_complete_maze() {
    for seed in 0..10 {
        for cursors in 1..=4 {
            let mut grid = Grid::new(6, 5);
            let mut state = backtracking::setup(6, 5, cursors, seed);
            assert!(!state.is_done());
            let mut rounds = 0;
            while !state.is_done() {
                backtracking::step(&mut state, &mut grid);
                rounds += 1;
                assert!(rounds <= 10_000);
            }
            for k in 0..cursors {
                assert_eq!(state.path(k), &Vec::<Pos>::new());
            }
            assert_spanning_tree(&grid);
        }
    }
    // Without a cursor nobody walks, and the maze stays walled.
    let state = backtracking::setup(6, 5, 0, 0);
    assert!(state.is_done());
}

#[test]
fn cursor_remembers_where_it_started() {
    let mut grid = Grid::new(2, 2);
    let mut cursor = MazeCursor::new(Pos::new(1, 1));
    assert_eq!(cursor.start(), Pos::new(1, 1));
    cursor.advance(&mut grid, Dir::South);
    cursor.retreat();
    cursor.retreat();
    assert_eq!(cursor.start(), Pos::new(1, 1));
    assert_eq!(cursor.position(), None);
}
