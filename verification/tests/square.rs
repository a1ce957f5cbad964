use sequence_game::square::Square;

#[test]
fn square_convert_a0_back_and_forth_from_notation() {
    let square = Square::from_notation("a0");
    assert_eq!(Square { row: 0, col: 0 }, square);
    assert_eq!(String::from("a0"), square.to_notation());
}

#[test]
fn square_convert_e4_back_and_forth_from_notation() {
    let square = Square::from_notation("e4");
    assert_eq!(Square { row: 4, col: 4 }, square);
    assert_eq!(String::from("e4"), square.to_notation());
}

#[test]
fn plus_moves_by_rows_and_columns() {
    let square = Square { row: 4, col: 4 };
    assert_eq!(Square { row: 7, col: 1 }, square.plus(3, -3));
    assert_eq!(Square { row: 0, col: 8 }, square.plus(-4, 4));
}

#[test]
fn plus_over_the_low_edge_leaves_the_board() {
    let square = Square { row: 0, col: 2 };
    let moved = square.plus(-1, -3);
    assert_eq!(Square { row: 255, col: 255 }, moved);
    assert!(!moved.is_valid());
}

#[test]
fn corners_are_valid_but_not_playable() {
    for (row, col) in [(0u8, 0u8), (0, 9), (9, 0), (9, 9)] {
        let square = Square { row, col };
        assert!(square.is_valid());
        assert!(square.is_corner());
        assert!(!square.is_playable());
    }
    assert!(Square { row: 0, col: 1 }.is_playable());
    assert!(!Square { row: 10, col: 0 }.is_valid());
    assert!(!Square { row: 10, col: 0 }.is_playable());
}

#[test]
fn convert_a0_back_and_forth_from_notation() {
    let square = Square::from_notation("a0");
    assert_eq!(Square { row: 0, col: 0 }, square);
    assert_eq!("a0", square.to_notation());
}

#[test]
fn convert_e4_back_and_forth_from_notation() {
    let square = Square::from_notation("e4");
    assert_eq!(Square { row: 4, col: 4 }, square);
    assert_eq!("e4", square.to_notation());
}
