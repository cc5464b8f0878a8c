use sokoban_generator::base::{Cell, boards_equal};
use sokoban_generator::tools::fill::remove_components;
use sokoban_generator::tools::stats::cell_stats;

/// A plain 4-neighbor reachability check, used to cross-examine the
/// library's connectivity claims at runtime.
fn floors_form_one_component(board: &Vec<Vec<Cell>>) -> bool {
    let size = board.len();
    let mut floors = Vec::new();
    for y in 0..size {
        for x in 0..size {
            if board[y][x] == Cell::Floor {
                floors.push((x, y));
            }
        }
    }
    if floors.is_empty() {
        return false;
    }
    let mut reached = vec![vec![false; size]; size];
    let mut stack = vec![floors[0]];
    reached[floors[0].1][floors[0].0] = true;
    while let Some((x, y)) = stack.pop() {
        let mut neighbors = Vec::new();
        if x > 0 {
            neighbors.push((x - 1, y));
        }
        if x + 1 < size {
            neighbors.push((x + 1, y));
        }
        if y > 0 {
            neighbors.push((x, y - 1));
        }
        if y + 1 < size {
            neighbors.push((x, y + 1));
        }
        for (nx, ny) in neighbors {
            if board[ny][nx] == Cell::Floor && !reached[ny][nx] {
                reached[ny][nx] = true;
                stack.push((nx, ny));
            }
        }
    }
    floors.iter().all(|&(x, y)| reached[y][x])
}

#[test]
fn reducer_keeps_the_larger_component() {
    let mut board = vec![
        vec![Cell::Floor, Cell::Wall, Cell::Floor],
        vec![Cell::Floor, Cell::Wall, Cell::Wall],
        vec![Cell::Floor, Cell::Wall, Cell::Wall],
    ];
    remove_components(&mut board);
    let expected = vec![
        vec![Cell::Floor, Cell::Wall, Cell::Wall],
        vec![Cell::Floor, Cell::Wall, Cell::Wall],
        vec![Cell::Floor, Cell::Wall, Cell::Wall],
    ];
    assert!(boards_equal(&board, &expected));
    assert!(floors_form_one_component(&board));
}

#[test]
fn reducer_leaves_single_component_untouched() {
    let original = vec![
        vec![Cell::Floor, Cell::Floor],
        vec![Cell::Wall, Cell::Floor],
    ];
    let mut board = original.clone();
    remove_components(&mut board);
    assert!(boards_equal(&board, &original));
}

#[test]
fn reducer_leaves_all_wall_board_untouched() {
    let original = vec![
        vec![Cell::Wall, Cell::Wall],
        vec![Cell::Wall, Cell::Wall],
    ];
    let mut board = original.clone();
    remove_components(&mut board);
    assert!(boards_equal(&board, &original));
}

#[test]
fn reducer_output_is_always_one_component() {
    // A board with three separate regions of sizes 1, 2 and 3.
    let mut board = vec![
        vec![Cell::Floor, Cell::Wall, Cell::Floor, Cell::Floor],
        vec![Cell::Wall, Cell::Wall, Cell::Wall, Cell::Wall],
        vec![Cell::Floor, Cell::Floor, Cell::Wall, Cell::Wall],
        vec![Cell::Floor, Cell::Wall, Cell::Wall, Cell::Wall],
    ];
    remove_components(&mut board);
    assert!(floors_form_one_component(&board));
    let floors: usize = board
        .iter()
        .map(|row| row.iter().filter(|c| **c == Cell::Floor).count())
        .sum();
    assert_eq!(floors, 3);
}

#[test]
fn cell_stats_reports_count_corners_and_rank() {
    let board = vec![
        vec![Cell::Wall, Cell::Floor, Cell::Wall],
        vec![Cell::Wall, Cell::Wall, Cell::Floor],
        vec![Cell::Wall, Cell::Floor, Cell::Wall],
    ];
    let floors = cell_stats(&board, Cell::Floor);
    assert_eq!(floors.count, 3);
    assert_eq!(floors.min, Some((1, 0)));
    assert_eq!(floors.max, Some((2, 2)));
    assert_eq!(floors.rank, (2, 3));

    let goals = cell_stats(&board, Cell::Goal);
    assert_eq!(goals.count, 0);
    assert_eq!(goals.min, None);
    assert_eq!(goals.max, None);
    assert_eq!(goals.rank, (0, 0));
}
