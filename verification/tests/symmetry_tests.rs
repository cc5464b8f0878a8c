use sokoban_generator::base::{Cell, boards_equal, cell_symbol};
use sokoban_generator::filter::Symmetries;
use sokoban_generator::tools::symmetry::{all, reflect_x, rotate};

fn sample_board() -> Vec<Vec<Cell>> {
    vec![
        vec![Cell::Piece, Cell::Floor, Cell::Wall],
        vec![Cell::Wall, Cell::Floor, Cell::Floor],
        vec![Cell::Goal, Cell::Wall, Cell::Floor],
    ]
}

#[test]
fn rotate_maps_cells_counter_clockwise() {
    let board = vec![
        vec![Cell::Piece, Cell::Floor],
        vec![Cell::Wall, Cell::Goal],
    ];
    // Output (x, y) holds input (x, size-1-y).
    let rotated = rotate(&board);
    assert_eq!(rotated[0][0], Cell::Floor);
    assert_eq!(rotated[0][1], Cell::Goal);
    assert_eq!(rotated[1][0], Cell::Piece);
    assert_eq!(rotated[1][1], Cell::Wall);
}

#[test]
fn reflect_mirrors_columns() {
    let board = vec![
        vec![Cell::Piece, Cell::Floor],
        vec![Cell::Wall, Cell::Goal],
    ];
    let mirrored = reflect_x(&board);
    assert_eq!(mirrored[0][0], Cell::Floor);
    assert_eq!(mirrored[0][1], Cell::Piece);
    assert_eq!(mirrored[1][0], Cell::Goal);
    assert_eq!(mirrored[1][1], Cell::Wall);
}

#[test]
fn four_rotations_return_the_original() {
    let board = sample_board();
    let once = rotate(&board);
    let twice = rotate(&once);
    let thrice = rotate(&twice);
    let full = rotate(&thrice);
    assert!(boards_equal(&full, &board));
    assert!(!boards_equal(&once, &board));
}

#[test]
fn two_reflections_return_the_original() {
    let board = sample_board();
    let once = reflect_x(&board);
    let twice = reflect_x(&once);
    assert!(boards_equal(&twice, &board));
    assert!(!boards_equal(&once, &board));
}

#[test]
fn orbit_has_eight_members_starting_with_the_original() {
    let board = sample_board();
    let orbit = all(&board);
    assert_eq!(orbit.len(), 8);
    assert!(boards_equal(&orbit[0], &board));
}

#[test]
fn filter_rejects_every_symmetry_of_an_accepted_board() {
    let board = sample_board();
    let mut filter = Symmetries::new();
    assert!(filter.accept(&board));
    for transform in all(&board) {
        assert!(!filter.accept(&transform));
    }
    // A genuinely different board is still accepted afterwards.
    let other = vec![
        vec![Cell::Floor, Cell::Floor, Cell::Floor],
        vec![Cell::Floor, Cell::Wall, Cell::Floor],
        vec![Cell::Floor, Cell::Floor, Cell::Floor],
    ];
    assert!(filter.accept(&other));
    assert!(!filter.accept(&other));
}

#[test]
fn cell_symbols_are_distinct() {
    assert_eq!(cell_symbol(&Cell::Floor), '.');
    assert_eq!(cell_symbol(&Cell::Wall), 'X');
    assert_eq!(cell_symbol(&Cell::Piece), '#');
    assert_eq!(cell_symbol(&Cell::Goal), '@');
    assert_eq!(cell_symbol(&Cell::Zone(0)), '0');
    assert_eq!(cell_symbol(&Cell::Zone(7)), '7');
    assert_eq!(cell_symbol(&Cell::Zone(9)), '9');
}
