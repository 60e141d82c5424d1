use chess_core::board::{Board, BoardErr};
use chess_core::types::{Color, Piece, Square, EMPTY_MAILBOX};

#[test]
fn empty_board_is_consistent() {
    let board = Board::default();
    assert_eq!(board.check_consistency(), Ok(()));
    assert!(board.white_to_move);
    assert_eq!(board.fullmove_number, 1);
    assert_eq!(board.ep_square, Square(64));
}

#[test]
fn startpos_bitboards_without_mailbox_are_inconsistent() {
    let board = Board::startpos();
    assert_eq!(board.pawns, 0x00FF00000000FF00);
    assert_eq!(board.white | board.black, 0xFFFF00000000FFFF);
    assert_eq!(board.castling, 0b1111);
    assert!(board.mailbox.iter().all(|&m| m == EMPTY_MAILBOX));
    assert_eq!(board.check_consistency(), Err(BoardErr::InconsistentState));
}

#[test]
fn place_piece_sets_mailbox_and_bitboards() {
    let mut board = Board::default();
    assert_eq!(board.place_piece(Square(12), Piece::Pawn, Color::White), Ok(()));
    assert_eq!(board.mailbox[12], 0);
    assert_eq!(board.pawns, 1 << 12);
    assert_eq!(board.white, 1 << 12);
    assert_eq!(board.black, 0);
    assert_eq!(board.place_piece(Square(60), Piece::King, Color::Black), Ok(()));
    assert_eq!(board.mailbox[60], 11);
    assert_eq!(board.kings, 1 << 60);
    assert_eq!(board.black, 1 << 60);
    assert_eq!(board.check_consistency(), Ok(()));
}

#[test]
fn place_piece_refuses_occupied_square() {
    let mut board = Board::default();
    assert_eq!(board.place_piece(Square(0), Piece::Rook, Color::White), Ok(()));
    assert_eq!(board.place_piece(Square(0), Piece::Knight, Color::Black), Err(BoardErr::InvalidSquare));
    assert_eq!(board.mailbox[0], 3);
    assert_eq!(board.knights, 0);
    assert_eq!(board.black, 0);
}

#[test]
fn place_piece_refuses_square_off_board() {
    let mut board = Board::default();
    assert_eq!(board.place_piece(Square(64), Piece::Queen, Color::White), Err(BoardErr::InvalidSquare));
    assert_eq!(board.queens, 0);
    assert_eq!(board.check_consistency(), Ok(()));
}

#[test]
fn placements_keep_board_consistent() {
    let mut board = Board::default();
    let pieces = [Piece::Pawn, Piece::Knight, Piece::Bishop, Piece::Rook, Piece::Queen, Piece::King];
    for s in 0..64u8 {
        let color = if s % 2 == 0 { Color::White } else { Color::Black };
        assert_eq!(board.place_piece(Square(s), pieces[(s % 6) as usize], color), Ok(()));
        assert_eq!(board.check_consistency(), Ok(()));
    }
}

#[test]
fn stray_bitboard_bit_is_inconsistent() {
    let mut board = Board::default();
    board.rooks = 1 << 7;
    assert_eq!(board.check_consistency(), Err(BoardErr::InconsistentState));
}

#[test]
fn missing_piece_bit_is_inconsistent() {
    let mut board = Board::default();
    assert_eq!(board.place_piece(Square(9), Piece::Bishop, Color::Black), Ok(()));
    board.bishops = 0;
    assert_eq!(board.check_consistency(), Err(BoardErr::InconsistentState));
    let mut board = Board::default();
    assert_eq!(board.place_piece(Square(9), Piece::Bishop, Color::Black), Ok(()));
    board.black = 0;
    assert_eq!(board.check_consistency(), Err(BoardErr::InconsistentState));
}
