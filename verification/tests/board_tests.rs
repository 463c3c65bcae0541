use bitboard::board::row_oriented_bit_board::{
    RowOrientedBitBoard, RowOrientedBitBoardFromStrError,
};
use bitboard::board::Board;
use bitboard::location::Location;

const EMPTY_GRID: &str = "\
..........
..........
..........
..........
";

const FILLED_GRID: &str = "\
##########
##########
##########
##########
";

fn filled_board() -> RowOrientedBitBoard<4> {
    RowOrientedBitBoard::<4>::from_str(FILLED_GRID).unwrap()
}

#[test]
fn display_empty_board() {
    let board = RowOrientedBitBoard::<4>::new();
    assert_eq!(board.render(), EMPTY_GRID);
}

#[test]
fn display_filled_board() {
    let board = filled_board();
    assert_eq!(board.render(), FILLED_GRID);
}

#[test]
fn erase_empty() {
    let mut board = RowOrientedBitBoard::<4>::new();
    assert_eq!(board.erase_filled_lines(), 0);
    assert_eq!(board.render(), EMPTY_GRID);
}

#[test]
fn erase_all() {
    let mut board = filled_board();
    assert_eq!(board.erase_filled_lines(), 4);
    assert_eq!(board.render(), EMPTY_GRID);
}

#[test]
fn erase_mid() {
    let mut board = RowOrientedBitBoard::<4>::from_str(
        "\
##########
.......###
##########
###.......
",
    )
    .unwrap();
    assert_eq!(board.erase_filled_lines(), 2);
    assert_eq!(
        board.render(),
        "\
..........
..........
.......###
###.......
"
    );
}

#[test]
fn from_string_success() {
    let input = "\
#.....####
##....####
###...####
##....####
";
    assert_eq!(
        RowOrientedBitBoard::<4>::from_str(input).unwrap().render(),
        input
    );
}

#[test]
fn from_string_invalid_char() {
    let input = "\
#.....####
##....#A##
###...####
##....####
";
    assert_eq!(
        RowOrientedBitBoard::<4>::from_str(input),
        Err(RowOrientedBitBoardFromStrError::InvalidChar('A'))
    );
}

#[test]
fn from_string_exceed_board_ceiling() {
    let input = "\
..........
#.....####
##....####
###...####
##....####
";
    assert_eq!(
        RowOrientedBitBoard::<4>::from_str(input),
        Err(RowOrientedBitBoardFromStrError::ExceedBoardCeiling(4))
    );
}

#[test]
fn from_string_invalid_line_width() {
    let input = "\
#.....####
##....####
###...###
##....####
";
    assert_eq!(
        RowOrientedBitBoard::<4>::from_str(input),
        Err(RowOrientedBitBoardFromStrError::InvalidLineWidth(9))
    );
}

#[test]
fn ceil_is_capacity() {
    let board = RowOrientedBitBoard::<7>::new();
    assert_eq!(board.ceil(), 7);
    let mut board = filled_board();
    assert_eq!(board.ceil(), 4);
    board.set(Location { x: 0, y: 0 }, false);
    assert_eq!(board.ceil(), 4);
    board.erase_filled_lines();
    assert_eq!(board.ceil(), 4);
}

#[test]
fn get_below_floor_is_occupied() {
    let board = RowOrientedBitBoard::<4>::new();
    assert!(board.get(Location { x: 0, y: -1 }));
    assert!(board.get(Location { x: 9, y: -128 }));
    assert!(board.get(Location { x: -3, y: -1 }));
    assert!(board.get(Location { x: 12, y: -1 }));
    let board = filled_board();
    assert!(board.get(Location { x: 5, y: -3 }));
}

#[test]
fn get_above_ceiling_is_empty() {
    let board = filled_board();
    assert!(!board.get(Location { x: 0, y: 4 }));
    assert!(!board.get(Location { x: 9, y: 127 }));
    assert!(!board.get(Location { x: -1, y: 4 }));
    assert!(!board.get(Location { x: 12, y: 4 }));
}

#[test]
fn get_wall_columns_are_occupied() {
    let board = RowOrientedBitBoard::<4>::new();
    assert!(board.get(Location { x: -1, y: 0 }));
    assert!(board.get(Location { x: -3, y: 3 }));
    assert!(board.get(Location { x: 10, y: 0 }));
    assert!(board.get(Location { x: 12, y: 3 }));
    assert!(!board.get(Location { x: 0, y: 0 }));
    assert!(!board.get(Location { x: 9, y: 3 }));
}

#[test]
fn from_string_trims_unicode_whitespace() {
    let board = RowOrientedBitBoard::<4>::from_str("\u{b}##########\n").unwrap();
    assert_eq!(
        board.render(),
        "\
..........
..........
..........
##########
"
    );
    let board = RowOrientedBitBoard::<4>::from_str("\u{b}..........").unwrap();
    assert_eq!(board.render(), EMPTY_GRID);
    let board =
        RowOrientedBitBoard::<4>::from_str("\u{3000}\u{2028}#.........\n\u{a0}\u{85}").unwrap();
    assert_eq!(
        board.render(),
        "\
..........
..........
..........
#.........
"
    );
}

#[test]
fn set_returns_previous_value() {
    let mut board = RowOrientedBitBoard::<4>::new();
    let loc = Location { x: 2, y: 1 };
    assert!(!board.set(loc, true));
    assert!(board.get(loc));
    assert!(board.set(loc, false));
    assert!(!board.get(loc));
    assert!(!board.get(Location { x: 3, y: 1 }));
}

#[test]
fn set_above_ceiling_is_discarded() {
    let mut board = RowOrientedBitBoard::<4>::new();
    assert!(!board.set(Location { x: 0, y: 4 }, true));
    assert_eq!(board.render(), EMPTY_GRID);
}

#[test]
fn set_then_render() {
    let mut board = RowOrientedBitBoard::<4>::new();
    board.set(Location { x: 0, y: 0 }, true);
    board.set(Location { x: 9, y: 3 }, true);
    assert_eq!(
        board.render(),
        "\
.........#
..........
..........
#.........
"
    );
}

#[test]
fn from_string_accepts_x_and_underscore() {
    let board = RowOrientedBitBoard::<2>::from_str(
        "\
X_X_X_X_X_
_X_X_X_X_X
",
    )
    .unwrap();
    assert_eq!(
        board.render(),
        "\
#.#.#.#.#.
.#.#.#.#.#
"
    );
}

#[test]
fn from_string_fewer_lines_fills_bottom_rows() {
    let board = RowOrientedBitBoard::<4>::from_str(
        "\
##########
#.........
",
    )
    .unwrap();
    assert_eq!(
        board.render(),
        "\
..........
..........
##########
#.........
"
    );
}

#[test]
fn from_string_empty_text_gives_empty_board() {
    let board = RowOrientedBitBoard::<4>::from_str("").unwrap();
    assert_eq!(board.render(), EMPTY_GRID);
    let board = RowOrientedBitBoard::<4>::from_str(" \t\r\n \n").unwrap();
    assert_eq!(board.render(), EMPTY_GRID);
}

#[test]
fn from_string_crlf_line_endings() {
    let board =
        RowOrientedBitBoard::<4>::from_str("####......\r\n..........\r\n").unwrap();
    assert_eq!(
        board.render(),
        "\
..........
..........
####......
..........
"
    );
}

#[test]
fn from_string_line_error_beats_ceiling_error() {
    let input = "\
..........
..........
...
..........
..........
";
    assert_eq!(
        RowOrientedBitBoard::<4>::from_str(input),
        Err(RowOrientedBitBoardFromStrError::InvalidLineWidth(3))
    );
}

#[test]
fn from_string_reports_first_invalid_char_bottom_up() {
    let input = "\
....?.....
..........
.......!..
";
    assert_eq!(
        RowOrientedBitBoard::<4>::from_str(input),
        Err(RowOrientedBitBoardFromStrError::InvalidChar('!'))
    );
}

#[test]
fn erase_keeps_row_order() {
    let mut board = RowOrientedBitBoard::<5>::from_str(
        "\
#........#
##########
.#......#.
##########
..#....#..
",
    )
    .unwrap();
    assert_eq!(board.erase_filled_lines(), 2);
    assert_eq!(
        board.render(),
        "\
..........
..........
#........#
.#......#.
..#....#..
"
    );
}

#[test]
fn default_is_empty_board() {
    let board = RowOrientedBitBoard::<4>::default();
    assert_eq!(board.render(), EMPTY_GRID);
}

#[test]
fn round_trip_other_capacity() {
    let input = "\
.#.#.#.#.#
##########
";
    assert_eq!(
        RowOrientedBitBoard::<2>::from_str(input).unwrap().render(),
        input
    );
}
