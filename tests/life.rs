use gol::{Gol, GolError};

fn grid_from(rows: &[&str]) -> Vec<Vec<bool>> {
    rows.iter().map(|r| r.chars().map(|ch| ch == '#').collect()).collect()
}

fn engine(rows: &[&str]) -> Gol {
    Gol::new(grid_from(rows)).unwrap()
}

// On a 3x3 torus every cell neighbours all eight others: each dead cell sees
// the three live ones and is born, and each live cell keeps two neighbours.
#[test]
fn vertical_line_fills_three_by_three_torus() {
    let mut g = Gol::new(vec![
        vec![false, true, false],
        vec![false, true, false],
        vec![false, true, false],
    ])
    .unwrap();
    g.tick();
    assert_eq!(
        g.get(),
        vec![
            vec![true, true, true],
            vec![true, true, true],
            vec![true, true, true],
        ]
    );
    for r in 0..3 {
        for c in 0..3 {
            assert_eq!(g.get_alive_neighbours(r, c), 8);
        }
    }
    g.tick();
    assert_eq!(g.get_alive_cells_count(), 0);
}

#[test]
fn non_rectangular_matrix_is_rejected() {
    let r = Gol::new(vec![vec![false, true, false], vec![true, false, true, false]]);
    assert!(matches!(r, Err(GolError::InvalidDimensions)));
}

#[test]
fn empty_matrix_is_rejected() {
    assert!(matches!(Gol::new(Vec::new()), Err(GolError::InvalidDimensions)));
}

#[test]
fn empty_rows_are_rejected() {
    assert!(matches!(Gol::new(vec![Vec::new(), Vec::new()]), Err(GolError::InvalidDimensions)));
}

#[test]
fn later_short_row_is_rejected() {
    let r = Gol::new(vec![vec![true, true], vec![true, true], vec![true]]);
    assert_eq!(r.err(), Some(GolError::InvalidDimensions));
}

#[test]
fn construction_keeps_cells_and_starts_running() {
    let cells = grid_from(&["#..", ".#.", "..#", "###"]);
    let g = Gol::new(cells.clone()).unwrap();
    assert_eq!(g.get(), cells);
    assert!(g.should_execute());
    assert!(!g.should_kill());
    assert!(!g.get_manual_stop());
    assert!(!g.get_manual_kill());
}

#[test]
fn first_row_counts_last_row() {
    let g = engine(&[".....", ".....", ".....", "..#.."]);
    assert_eq!(g.get_alive_neighbours(0, 2), 1);
    assert_eq!(g.get_alive_neighbours(0, 1), 1);
    assert_eq!(g.get_alive_neighbours(0, 3), 1);
    assert_eq!(g.get_alive_neighbours(0, 0), 0);
}

#[test]
fn first_column_counts_last_column() {
    let g = engine(&["....", "...#", "....", "...."]);
    assert_eq!(g.get_alive_neighbours(1, 0), 1);
    assert_eq!(g.get_alive_neighbours(0, 0), 1);
    assert_eq!(g.get_alive_neighbours(2, 0), 1);
    assert_eq!(g.get_alive_neighbours(3, 0), 0);
}

#[test]
fn corner_counts_opposite_corner() {
    let g = engine(&["....", "....", "...#"]);
    assert_eq!(g.get_alive_neighbours(0, 0), 1);
}

#[test]
fn full_grid_has_eight_neighbours() {
    let g = engine(&["####", "####", "####", "####"]);
    for r in 0..4 {
        for c in 0..4 {
            assert_eq!(g.get_alive_neighbours(r, c), 8);
        }
    }
}

#[test]
fn single_row_counts_wrapped_offsets() {
    let g = engine(&["#.."]);
    assert_eq!(g.get_alive_neighbours(0, 1), 3);
    assert_eq!(g.get_alive_neighbours(0, 0), 2);
}

#[test]
fn block_is_still_life() {
    let start = grid_from(&["......", "......", "..##..", "..##..", "......", "......"]);
    let mut g = Gol::new(start.clone()).unwrap();
    g.tick();
    assert_eq!(g.get(), start);
    g.tick();
    assert_eq!(g.get(), start);
}

#[test]
fn block_across_the_edges_is_still_life() {
    let start = grid_from(&["#...#", ".....", ".....", "#...#"]);
    let mut g = Gol::new(start.clone()).unwrap();
    g.tick();
    assert_eq!(g.get(), start);
}

#[test]
fn blinker_returns_after_two_steps() {
    let horizontal = grid_from(&[".....", ".....", ".###.", ".....", "....."]);
    let vertical = grid_from(&[".....", "..#..", "..#..", "..#..", "....."]);
    let mut g = Gol::new(horizontal.clone()).unwrap();
    g.tick();
    assert_eq!(g.get(), vertical);
    g.tick();
    assert_eq!(g.get(), horizontal);
}

#[test]
fn blinker_wrapping_around_the_corner() {
    let start = grid_from(&["#....##", ".......", ".......", ".......", ".......", "......."]);
    let mut g = Gol::new(start.clone()).unwrap();
    g.tick();
    let after = g.get();
    assert!(after[0][6] && after[1][6] && after[5][6]);
    assert_eq!(g.get_alive_cells_count(), 3);
    g.tick();
    assert_eq!(g.get(), start);
}

#[test]
fn run_matches_repeated_ticks() {
    let start = grid_from(&[".#......", "..#.....", "###.....", "........", "........", "........"]);
    let mut stepped = Gol::new(start.clone()).unwrap();
    for _ in 0..7 {
        stepped.tick();
    }
    let mut ran = Gol::new(start).unwrap();
    ran.run(7);
    assert_eq!(ran.get(), stepped.get());
}

#[test]
fn run_zero_leaves_grid() {
    let start = grid_from(&["#.#", ".#.", "#.."]);
    let mut g = Gol::new(start.clone()).unwrap();
    g.run(0);
    assert_eq!(g.get(), start);
}

#[test]
fn glider_moves_one_cell_diagonally_in_four_steps() {
    let start = grid_from(&[".#....", "..#...", "###...", "......", "......", "......"]);
    let moved = grid_from(&["......", "..#...", "...#..", ".###..", "......", "......"]);
    let mut g = Gol::new(start).unwrap();
    g.run(4);
    assert_eq!(g.get(), moved);
}

#[test]
fn birth_needs_exactly_three() {
    let mut g = engine(&["......", ".#.#..", "......", "......", "......", "......"]);
    g.tick();
    assert_eq!(g.get_alive_cells_count(), 0);
    let mut g = engine(&["......", ".#.#..", "..#...", "......", "......", "......"]);
    g.tick();
    let after = g.get();
    assert!(after[1][2]);
    assert!(after[2][2]);
}

#[test]
fn overcrowded_cell_dies() {
    let mut g = engine(&[".....", ".###.", ".##..", ".....", "....."]);
    assert_eq!(g.get_alive_neighbours(1, 2), 4);
    g.tick();
    assert!(!g.get()[1][2]);
}

#[test]
fn same_grid_gives_same_step() {
    let start = grid_from(&["#..#.", ".##..", "#...#", "..#.#"]);
    let mut a = Gol::new(start.clone()).unwrap();
    let mut b = Gol::new(start).unwrap();
    a.tick();
    b.tick();
    assert_eq!(a.get(), b.get());
}

#[test]
fn get_returns_independent_copy() {
    let g = engine(&["#.", ".#"]);
    let mut copy = g.get();
    copy[0][0] = false;
    copy[1][1] = false;
    assert_eq!(g.get(), grid_from(&["#.", ".#"]));
}

#[test]
fn kill_stays_after_stop_changes() {
    let mut g = engine(&["#.", ".#"]);
    g.set_manual_kill(true);
    assert!(g.should_kill());
    g.set_manual_stop(true);
    assert!(g.should_kill());
    g.set_manual_stop(false);
    assert!(g.should_kill());
    assert!(g.get_manual_kill());
}

#[test]
fn pause_and_resume() {
    let mut g = engine(&["#.", ".#"]);
    assert!(g.should_execute());
    g.set_manual_stop(true);
    assert!(!g.should_execute());
    assert!(g.get_manual_stop());
    g.set_manual_stop(false);
    assert!(g.should_execute());
    assert!(!g.get_manual_stop());
}

#[test]
fn stop_at_does_not_gate_execution() {
    let mut g = engine(&["#.", ".#"]);
    g.set_stop_at(2);
    assert_eq!(g.get_alive_cells_count(), 2);
    assert!(g.should_execute());
    g.set_stop_at(u128::MAX);
    assert!(g.should_execute());
}

#[test]
fn tick_keeps_flags() {
    let mut g = engine(&["#..", ".#.", "..#"]);
    g.set_manual_stop(true);
    g.set_manual_kill(true);
    g.tick();
    assert!(g.get_manual_stop());
    assert!(g.get_manual_kill());
}

#[test]
fn alive_cells_count_counts_every_row() {
    assert_eq!(engine(&["#.#", "...", "###"]).get_alive_cells_count(), 5);
    assert_eq!(engine(&["..."]).get_alive_cells_count(), 0);
}
