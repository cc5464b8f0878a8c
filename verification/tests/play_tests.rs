use sokoban_generator::base::Cell;
use sokoban_generator::base::find_cell;
use sokoban_generator::play::{Direction, explore_space, move_piece};

fn board_2x2_winnable() -> Vec<Vec<Cell>> {
    vec![
        vec![Cell::Piece, Cell::Floor],
        vec![Cell::Wall, Cell::Goal],
    ]
}

#[test]
fn move_into_adjacent_wall_is_noop() {
    let mut board = vec![
        vec![Cell::Piece, Cell::Wall],
        vec![Cell::Wall, Cell::Wall],
    ];
    let stats = move_piece(&mut board, Direction::Right).unwrap();
    assert_eq!(stats.cells_moved, 0);
    assert_eq!(stats.piece_pos, (0, 0));
    assert!(!stats.victory);
    assert_eq!(board[0][0], Cell::Piece);
}

#[test]
fn move_off_edge_is_noop() {
    let mut board = board_2x2_winnable();
    let stats = move_piece(&mut board, Direction::Up).unwrap();
    assert_eq!(stats.cells_moved, 0);
    assert_eq!(stats.piece_pos, (0, 0));
    assert!(!stats.victory);
    let stats = move_piece(&mut board, Direction::Left).unwrap();
    assert_eq!(stats.cells_moved, 0);
    assert!(!stats.victory);
}

#[test]
fn move_slides_over_floor_onto_goal() {
    let mut board = vec![
        vec![Cell::Piece, Cell::Floor, Cell::Goal],
        vec![Cell::Wall, Cell::Wall, Cell::Wall],
        vec![Cell::Wall, Cell::Wall, Cell::Wall],
    ];
    let stats = move_piece(&mut board, Direction::Right).unwrap();
    assert_eq!(stats.cells_moved, 2);
    assert_eq!(stats.piece_pos, (2, 0));
    assert!(stats.victory);
    assert_eq!(board[0][0], Cell::Floor);
    assert_eq!(board[0][1], Cell::Floor);
    assert_eq!(board[0][2], Cell::Piece);
}

#[test]
fn move_stops_before_wall_not_at_it() {
    let mut board = vec![
        vec![Cell::Piece, Cell::Floor, Cell::Wall],
        vec![Cell::Wall, Cell::Wall, Cell::Wall],
        vec![Cell::Wall, Cell::Wall, Cell::Wall],
    ];
    let stats = move_piece(&mut board, Direction::Right).unwrap();
    assert_eq!(stats.cells_moved, 1);
    assert_eq!(stats.piece_pos, (1, 0));
    assert!(!stats.victory);
}

#[test]
fn move_without_piece_returns_none() {
    let mut board = vec![
        vec![Cell::Floor, Cell::Floor],
        vec![Cell::Floor, Cell::Floor],
    ];
    assert!(move_piece(&mut board, Direction::Down).is_none());
}

#[test]
fn explore_two_by_two_scenario() {
    // From (0,0) only Right is open; Right slides to (1,0); Down then wins.
    let mut board = board_2x2_winnable();

    let stats = move_piece(&mut board, Direction::Right).unwrap();
    assert_eq!(stats.cells_moved, 1);
    assert_eq!(stats.piece_pos, (1, 0));
    assert!(!stats.victory);

    let stats = move_piece(&mut board, Direction::Down).unwrap();
    assert_eq!(stats.cells_moved, 1);
    assert_eq!(stats.piece_pos, (1, 1));
    assert!(stats.victory);

    let result = explore_space(&board_2x2_winnable());
    assert!(result.solvable);
    assert_eq!(result.num_moves, 2);
    assert_eq!(result.solution, vec![Direction::Right, Direction::Down]);
}

#[test]
fn explore_unreachable_goal_is_unsolvable() {
    let board = vec![
        vec![Cell::Piece, Cell::Floor, Cell::Wall],
        vec![Cell::Wall, Cell::Wall, Cell::Wall],
        vec![Cell::Wall, Cell::Wall, Cell::Goal],
    ];
    let result = explore_space(&board);
    assert!(!result.solvable);
    assert_eq!(result.num_moves, 0);
    assert!(result.solution.is_empty());
}

#[test]
fn explore_without_goal_is_unsolvable() {
    let board = vec![
        vec![Cell::Piece, Cell::Floor],
        vec![Cell::Wall, Cell::Wall],
    ];
    let result = explore_space(&board);
    assert!(!result.solvable);
    assert_eq!(result.num_moves, 0);
    assert!(result.solution.is_empty());
}

#[test]
fn explore_without_piece_is_default() {
    let board = vec![
        vec![Cell::Floor, Cell::Floor],
        vec![Cell::Floor, Cell::Goal],
    ];
    let result = explore_space(&board);
    assert!(!result.solvable);
    assert_eq!(result.num_moves, 0);
    assert!(result.solution.is_empty());
}

#[test]
fn explore_solution_replays_to_victory() {
    let board = vec![
        vec![Cell::Floor, Cell::Floor, Cell::Floor, Cell::Wall],
        vec![Cell::Floor, Cell::Wall, Cell::Floor, Cell::Floor],
        vec![Cell::Piece, Cell::Floor, Cell::Goal, Cell::Wall],
        vec![Cell::Wall, Cell::Floor, Cell::Floor, Cell::Floor],
    ];
    let result = explore_space(&board);
    assert!(result.solvable);
    assert_eq!(result.num_moves, result.solution.len());
    let mut replay = board.clone();
    let mut won = false;
    for d in &result.solution {
        let stats = move_piece(&mut replay, *d).unwrap();
        assert!(!won);
        won = stats.victory;
    }
    assert!(won);
}

#[test]
fn explore_reports_the_shortest_solution() {
    // Right, Down, Left reaches the goal in three slides; every other
    // route through the open ring is longer.
    let board = vec![
        vec![Cell::Piece, Cell::Floor, Cell::Floor],
        vec![Cell::Wall, Cell::Wall, Cell::Floor],
        vec![Cell::Goal, Cell::Floor, Cell::Floor],
    ];
    let result = explore_space(&board);
    assert!(result.solvable);
    assert_eq!(result.num_moves, 3);
    assert_eq!(
        result.solution,
        vec![Direction::Right, Direction::Down, Direction::Left]
    );
}

#[test]
fn find_cell_returns_first_in_row_major_order() {
    let board = vec![
        vec![Cell::Wall, Cell::Floor],
        vec![Cell::Floor, Cell::Floor],
    ];
    assert_eq!(find_cell(&board, Cell::Floor), Some((1, 0)));
    assert_eq!(find_cell(&board, Cell::Wall), Some((0, 0)));
    assert_eq!(find_cell(&board, Cell::Goal), None);
}
