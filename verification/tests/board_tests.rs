use hexboard::board::{Board, Color, GameStatus, HexCell};
use hexboard::coord::Coord;

#[test]
fn test_game_status() {
    let mut board = Board::new(5);
    board.place_piece(Coord { x: 0, y: 0 }, Color::Black);
    board.place_piece(Coord { x: 0, y: 2 }, Color::White);
    board.place_piece(Coord { x: 0, y: 1 }, Color::Black);
    board.place_piece(Coord { x: 2, y: 4 }, Color::White);
    board.place_piece(Coord { x: 1, y: 1 }, Color::Black);
    board.place_piece(Coord { x: 4, y: 1 }, Color::White);
    board.place_piece(Coord { x: 1, y: 2 }, Color::Black);
    board.place_piece(Coord { x: 3, y: 0 }, Color::White);
    board.place_piece(Coord { x: 2, y: 2 }, Color::Black);
    board.place_piece(Coord { x: 4, y: 3 }, Color::White);
    board.place_piece(Coord { x: 3, y: 1 }, Color::Black);
    assert_eq!(board.status(), GameStatus::Ongoing);
    board.place_piece(Coord { x: 4, y: 0 }, Color::Black);
    assert_eq!(board.status(), GameStatus::BlackWin);

    let mut board2 = Board::new(5);
    board2.place_piece(Coord { x: 0, y: 0 }, Color::White);
    board2.place_piece(Coord { x: 2, y: 0 }, Color::Black);
    board2.place_piece(Coord { x: 1, y: 0 }, Color::White);
    board2.place_piece(Coord { x: 4, y: 2 }, Color::Black);
    board2.place_piece(Coord { x: 1, y: 1 }, Color::White);
    board2.place_piece(Coord { x: 1, y: 4 }, Color::Black);
    board2.place_piece(Coord { x: 2, y: 1 }, Color::White);
    board2.place_piece(Coord { x: 0, y: 3 }, Color::Black);
    board2.place_piece(Coord { x: 2, y: 2 }, Color::White);
    board2.place_piece(Coord { x: 3, y: 4 }, Color::Black);
    board2.place_piece(Coord { x: 1, y: 3 }, Color::White);
    assert_eq!(board2.status(), GameStatus::Ongoing);
    board2.place_piece(Coord { x: 0, y: 4 }, Color::White);
    assert_eq!(board2.status(), GameStatus::WhiteWin);
}

#[test]
fn test_coord_num_conversion() {
    let board = Board::new(5);
    for x in 0..5u8 {
        for y in 0..5u8 {
            assert_eq!(
                board.num_to_coord(board.coord_to_num(Coord { x, y })),
                Coord { x, y }
            );
        }
    }
}

#[test]
fn test_invalid_placement_changes_nothing() {
    let mut b = Board::new(5);
    assert!(b.place_piece(Coord { x: 1, y: 1 }, Color::Black));
    // a cell occupied by either color rejects both colors
    assert!(!b.place_piece(Coord { x: 1, y: 1 }, Color::White));
    assert!(!b.place_piece(Coord { x: 1, y: 1 }, Color::Black));
    // out-of-bounds placements are rejected
    assert!(!b.place_piece(Coord { x: 5, y: 0 }, Color::White));
    assert!(!b.place_piece(Coord { x: 0, y: 9 }, Color::White));
    assert!(!b.place_piece(Coord { x: 200, y: 200 }, Color::Black));
    // the board is exactly as after the one successful move
    assert_eq!(b.piece(Coord { x: 1, y: 1 }), HexCell::Black);
    assert_eq!(b.piece(Coord { x: 5, y: 0 }), HexCell::Empty);
    assert_eq!(b.status(), GameStatus::Ongoing);
    for x in 0..5u8 {
        for y in 0..5u8 {
            if (x, y) != (1, 1) {
                assert_eq!(b.piece(Coord { x, y }), HexCell::Empty);
            }
        }
    }
}

#[test]
fn test_place_idempotent() {
    let mut b = Board::new(5);
    assert!(b.place_piece(Coord { x: 2, y: 3 }, Color::White));
    assert!(!b.place_piece(Coord { x: 2, y: 3 }, Color::White));
    assert_eq!(b.piece(Coord { x: 2, y: 3 }), HexCell::White);
    assert_eq!(b.status(), GameStatus::Ongoing);
    for x in 0..5u8 {
        for y in 0..5u8 {
            if (x, y) != (2, 3) {
                assert_eq!(b.piece(Coord { x, y }), HexCell::Empty);
            }
        }
    }
}

#[test]
fn test_smallest_board() {
    let mut b = Board::new(1);
    assert_eq!(b.status(), GameStatus::Ongoing);
    assert!(b.place_piece(Coord { x: 0, y: 0 }, Color::Black));
    assert_eq!(b.status(), GameStatus::BlackWin);
}

#[test]
fn test_largest_board() {
    let mut b = Board::new(26);
    assert!(b.place_piece(Coord { x: 25, y: 25 }, Color::White));
    assert_eq!(b.piece(Coord { x: 25, y: 25 }), HexCell::White);
    assert_eq!(b.status(), GameStatus::Ongoing);
}

#[test]
fn test_default_board() {
    let b = Board::default();
    assert_eq!(b.size, 13);
    assert_eq!(b.status(), GameStatus::Ongoing);
    assert_eq!(b.piece(Coord { x: 6, y: 6 }), HexCell::Empty);
}

#[test]
fn test_win_is_terminal() {
    let mut b = Board::new(2);
    assert!(b.place_piece(Coord { x: 0, y: 0 }, Color::Black));
    assert!(b.place_piece(Coord { x: 1, y: 0 }, Color::Black));
    assert_eq!(b.status(), GameStatus::BlackWin);
    // further moves are mechanically accepted but the win stands
    assert!(b.place_piece(Coord { x: 0, y: 1 }, Color::White));
    assert_eq!(b.status(), GameStatus::BlackWin);
}
