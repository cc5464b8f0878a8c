use sokoban_generator::base::{BoardIter, Cell, SecondaryIter};
use sokoban_generator::empty::Maker;
use sokoban_generator::iters::empty;
use sokoban_generator::iters::filled;
use sokoban_generator::iters::filled::SerialFiller;
use sokoban_generator::iters::holistic;
use sokoban_generator::play::explore_space;

fn count_cells(board: &Vec<Vec<Cell>>, cell: Cell) -> usize {
    board
        .iter()
        .map(|row| row.iter().filter(|c| **c == cell).count())
        .sum()
}

/// The same runtime connectivity cross-check as in the reducer tests.
fn floors_form_one_component(board: &Vec<Vec<Cell>>) -> bool {
    let size = board.len();
    let mut floors = Vec::new();
    for y in 0..size {
        for x in 0..size {
            if board[y][x] == Cell::Floor {
                floors.push((x, y));
            }
        }
    }
    if floors.is_empty() {
        return false;
    }
    let mut reached = vec![vec![false; size]; size];
    let mut stack = vec![floors[0]];
    reached[floors[0].1][floors[0].0] = true;
    while let Some((x, y)) = stack.pop() {
        let mut neighbors = Vec::new();
        if x > 0 {
            neighbors.push((x - 1, y));
        }
        if x + 1 < size {
            neighbors.push((x + 1, y));
        }
        if y > 0 {
            neighbors.push((x, y - 1));
        }
        if y + 1 < size {
            neighbors.push((x, y + 1));
        }
        for (nx, ny) in neighbors {
            if board[ny][nx] == Cell::Floor && !reached[ny][nx] {
                reached[ny][nx] = true;
                stack.push((nx, ny));
            }
        }
    }
    floors.iter().all(|&(x, y)| reached[y][x])
}

#[test]
fn legacy_maker_yields_exactly_one_2x2_board() {
    // Up to symmetry there is one 2x2 layout with three floors and a wall.
    let mut maker = Maker::new(2);
    let board = maker.next_board().expect("one board expected");
    assert_eq!(board.len(), 2);
    assert_eq!(count_cells(&board, Cell::Floor), 3);
    assert_eq!(count_cells(&board, Cell::Wall), 1);
    assert!(maker.next_board().is_none());
}

#[test]
fn serial_maker_boards_are_connected_and_deduplicated() {
    let mut source = empty::serial(3);
    let mut seen = Vec::new();
    while let Some(board) = source.next_board() {
        assert_eq!(board.len(), 3);
        assert!(count_cells(&board, Cell::Floor) >= 2);
        assert!(count_cells(&board, Cell::Wall) >= 1);
        assert!(floors_form_one_component(&board));
        seen.push(board);
    }
    assert!(seen.len() > 0);
}

#[test]
fn serial_empty_2x2_set_has_two_layouts() {
    // One two-floor strip and one three-floor angle, up to symmetry.
    let mut source = empty::serial(2);
    let mut boards = Vec::new();
    while let Some(board) = source.next_board() {
        boards.push(board);
    }
    assert_eq!(boards.len(), 2);
}

#[test]
fn random_maker_produces_a_valid_board() {
    let mut source = empty::random(3);
    let board = source.next_board().expect("a random board");
    assert_eq!(board.len(), 3);
    assert!(count_cells(&board, Cell::Floor) >= 2);
    assert!(count_cells(&board, Cell::Wall) >= 1);
    assert!(floors_form_one_component(&board));
}

#[test]
fn exhaustive_filler_emits_k_times_k_minus_one_boards() {
    // k = 3 floor cells: exactly 3 * 2 = 6 ordered (piece, goal) pairs.
    let empty_board = vec![
        vec![Cell::Floor, Cell::Floor],
        vec![Cell::Wall, Cell::Floor],
    ];
    let mut filler = SerialFiller::new_secondary(empty_board);
    let mut n = 0;
    while let Some(board) = filler.next_board() {
        assert_eq!(count_cells(&board, Cell::Piece), 1);
        assert_eq!(count_cells(&board, Cell::Goal), 1);
        assert_eq!(count_cells(&board, Cell::Floor), 1);
        n += 1;
    }
    assert_eq!(n, 6);
}

#[test]
fn exhaustive_filler_on_too_few_floors_is_empty() {
    let empty_board = vec![
        vec![Cell::Floor, Cell::Wall],
        vec![Cell::Wall, Cell::Wall],
    ];
    let mut filler = SerialFiller::new_secondary(empty_board);
    assert!(filler.next_board().is_none());
}

#[test]
fn random_filler_places_distinct_piece_and_goal() {
    let empty_board = vec![
        vec![Cell::Floor, Cell::Floor],
        vec![Cell::Wall, Cell::Floor],
    ];
    let mut filler = filled::random(empty_board);
    let board = filler.next_board().expect("a filled board");
    assert_eq!(count_cells(&board, Cell::Piece), 1);
    assert_eq!(count_cells(&board, Cell::Goal), 1);
    assert_eq!(count_cells(&board, Cell::Floor), 1);
}

#[test]
fn filtered_filler_deduplicates_symmetric_placements() {
    // On the two-floor strip the two orderings mirror each other.
    let empty_board = vec![
        vec![Cell::Floor, Cell::Floor],
        vec![Cell::Wall, Cell::Wall],
    ];
    let mut filler = filled::serial(empty_board);
    let mut n = 0;
    while let Some(_) = filler.next_board() {
        n += 1;
    }
    assert_eq!(n, 1);
}

#[test]
fn holistic_serial_produces_playable_boards() {
    let mut pipeline = holistic::serial(2);
    let mut n = 0;
    while let Some(board) = pipeline.next_board() {
        assert_eq!(board.len(), 2);
        assert_eq!(count_cells(&board, Cell::Piece), 1);
        assert_eq!(count_cells(&board, Cell::Goal), 1);
        n += 1;
    }
    assert!(n > 0);
}

#[test]
fn holistic_solvable_serial_produces_only_solvable_boards() {
    let mut pipeline = holistic::solvable_serial(3);
    let mut n = 0;
    while let Some(board) = pipeline.next_board() {
        let result = explore_space(&board);
        assert!(result.solvable);
        n += 1;
        if n >= 10 {
            break;
        }
    }
    assert!(n > 0);
}

#[test]
fn holistic_random_single_sample_works() {
    let mut pipeline = holistic::random(3);
    let board = pipeline.next_board().expect("a random filled board");
    assert_eq!(board.len(), 3);
    assert_eq!(count_cells(&board, Cell::Piece), 1);
    assert_eq!(count_cells(&board, Cell::Goal), 1);
}

#[test]
fn holistic_solvable_random_sample_is_solvable() {
    let mut pipeline = holistic::solvable_random(3);
    let board = pipeline.next_board().expect("a solvable random board");
    let result = explore_space(&board);
    assert!(result.solvable);
    assert!(result.num_moves > 0);
}
