use chess_core::board::Board;
use chess_core::fen::{fen_piece_to_piece_and_color, parse_en_passant, piece_and_color_to_fen_piece, FenError};
use chess_core::types::{Color, Piece, Square};
use std::str::FromStr;

#[test]
fn fen_round_trip_initial_position() {
    let fen = "rnbqkbnr/pppppppp/8/8/8/8/PPPPPPPP/RNBQKBNR w KQkq - 0 1";

    let board = Board::from_str(fen).expect("valid fen");
    let output = board.to_string();

    assert_eq!(fen, output);
}

fn read(fen: &str) -> Result<Board, FenError> {
    Board::from_fen(fen)
}

#[test]
fn fen_round_trips_of_other_positions() {
    let fens = [
        "8/8/8/8/8/8/8/8 w - - 0 1",
        "r3k2r/pp3ppp/2n5/3Pp3/8/8/PPP2PPP/R3K2R w Kq e6 12 34",
        "4k3/8/8/8/3pP3/8/8/4K3 b - e3 0 57",
        "rnbqkb1r/pppppppp/5n2/8/8/5N2/PPPPPPPP/RNBQKB1R w KQkq - 255 65535",
        "7K/8/8/8/8/8/8/k7 b Qk - 3 100",
    ];
    for fen in fens {
        let board = read(fen).expect("valid fen");
        assert_eq!(board.to_string(), fen);
    }
}

#[test]
fn fen_read_of_written_board_is_the_board() {
    let mut board = Board::default();
    assert_eq!(board.place_piece(Square(4), Piece::King, Color::White), Ok(()));
    assert_eq!(board.place_piece(Square(60), Piece::King, Color::Black), Ok(()));
    assert_eq!(board.place_piece(Square(35), Piece::Pawn, Color::Black), Ok(()));
    assert_eq!(board.place_piece(Square(36), Piece::Pawn, Color::White), Ok(()));
    board.white_to_move = false;
    board.castling = 0b0101;
    board.ep_square = Square(43);
    board.halfmove_clock = 7;
    board.fullmove_number = 1234;
    let text = board.to_string();
    assert_eq!(text, "4k3/8/8/3pP3/8/8/8/4K3 b Kk d6 7 1234");
    let back = read(&text).expect("valid fen");
    assert_eq!(back.mailbox, board.mailbox);
    assert_eq!(back.pawns, board.pawns);
    assert_eq!(back.kings, board.kings);
    assert_eq!(back.white, board.white);
    assert_eq!(back.black, board.black);
    assert_eq!(back.white_to_move, board.white_to_move);
    assert_eq!(back.castling, board.castling);
    assert_eq!(back.ep_square, board.ep_square);
    assert_eq!(back.halfmove_clock, board.halfmove_clock);
    assert_eq!(back.fullmove_number, board.fullmove_number);
    assert_eq!(back.hash, 0);
}

#[test]
fn fen_read_board_is_consistent() {
    let board = read("rnbqkbnr/pppppppp/8/8/8/8/PPPPPPPP/RNBQKBNR w KQkq - 0 1").expect("valid fen");
    assert_eq!(board.check_consistency(), Ok(()));
    assert_eq!(board.pawns, 0x00FF00000000FF00);
    assert_eq!(board.knights, 0x4200000000000042);
    assert_eq!(board.white, 0x000000000000FFFF);
    assert_eq!(board.black, 0xFFFF000000000000);
    assert_eq!(board.mailbox[0], 3);
    assert_eq!(board.mailbox[60], 11);
}

#[test]
fn fen_field_values() {
    let board = read("8/8/8/8/8/8/8/8 b Qq a3 +7 007").expect("valid fen");
    assert!(!board.white_to_move);
    assert_eq!(board.castling, 0b1010);
    assert_eq!(board.ep_square, Square(16));
    assert_eq!(board.halfmove_clock, 7);
    assert_eq!(board.fullmove_number, 7);
    let board = read("8/8/8/8/8/8/8/8 w KKk h6 0 1").expect("valid fen");
    assert_eq!(board.castling, 0b0101);
    assert_eq!(board.ep_square, Square(47));
}

#[test]
fn fen_accepts_any_white_space_between_fields() {
    let board = read("  8/8/8/8/8/8/8/8\tw\u{3000}-\n-  0 1 ").expect("valid fen");
    assert_eq!(board.to_string(), "8/8/8/8/8/8/8/8 w - - 0 1");
}

#[test]
fn fen_with_fewer_ranks_fills_the_top_ranks() {
    let board = read("k7/8 w - - 0 1").expect("valid fen");
    assert_eq!(board.kings, 1 << 56);
    assert_eq!(board.to_string(), "k7/8/8/8/8/8/8/8 w - - 0 1");
}

#[test]
fn fen_errors() {
    assert_eq!(read("8/8/8/8/8/8/8/8 w - - 0").err(), Some(FenError::InvalidFieldCount));
    assert_eq!(read("8/8/8/8/8/8/8/8 w - - 0 1 x").err(), Some(FenError::InvalidFieldCount));
    assert_eq!(read("").err(), Some(FenError::InvalidFieldCount));
    assert_eq!(read("8/8/8/8/8/8/8/7x w - - 0 1").err(), Some(FenError::InvalidPiece('x')));
    assert_eq!(read("8/8/8/8/8/8/8/7 w - - 0 1").err(), Some(FenError::InvalidBoard));
    assert_eq!(read("8/8/8/8/8/8/8/9 w - - 0 1").err(), Some(FenError::InvalidBoard));
    assert_eq!(read("8/8/8/8/8/8/8/p8 w - - 0 1").err(), Some(FenError::InvalidBoard));
    assert_eq!(read("8/8/8/8/8/8/8//8 w - - 0 1").err(), Some(FenError::InvalidBoard));
    assert_eq!(read("8/8/8/8/8/8/8/8 x - - 0 1").err(), Some(FenError::InvalidSideToMove));
    assert_eq!(read("8/8/8/8/8/8/8/8 wb - - 0 1").err(), Some(FenError::InvalidSideToMove));
    assert_eq!(read("8/8/8/8/8/8/8/8 w KX - 0 1").err(), Some(FenError::InvalidCastling));
    assert_eq!(read("8/8/8/8/8/8/8/8 w -- - 0 1").err(), Some(FenError::InvalidCastling));
    assert_eq!(read("8/8/8/8/8/8/8/8 w - e4 0 1").err(), Some(FenError::InvalidEnPassant));
    assert_eq!(read("8/8/8/8/8/8/8/8 w - e 0 1").err(), Some(FenError::InvalidEnPassant));
    assert_eq!(read("8/8/8/8/8/8/8/8 w - e33 0 1").err(), Some(FenError::InvalidEnPassant));
    assert_eq!(read("8/8/8/8/8/8/8/8 w - i3 0 1").err(), Some(FenError::InvalidEnPassant));
    assert_eq!(read("8/8/8/8/8/8/8/8 w - - 256 1").err(), Some(FenError::InvalidHalfmoveClock));
    assert_eq!(read("8/8/8/8/8/8/8/8 w - - -1 1").err(), Some(FenError::InvalidHalfmoveClock));
    assert_eq!(read("8/8/8/8/8/8/8/8 w - - + 1").err(), Some(FenError::InvalidHalfmoveClock));
    assert_eq!(read("8/8/8/8/8/8/8/8 w - - 0 65536").err(), Some(FenError::InvalidFullmoveNumber));
    assert_eq!(read("8/8/8/8/8/8/8/8 w - - 0 1a").err(), Some(FenError::InvalidFullmoveNumber));
}

#[test]
fn fen_reports_the_first_bad_field() {
    assert_eq!(read("8/8/8/8/8/8/8/7y x X i9 z z").err(), Some(FenError::InvalidPiece('y')));
    assert_eq!(read("8/8/8/8/8/8/8/8 x X i9 z z").err(), Some(FenError::InvalidSideToMove));
    assert_eq!(read("8/8/8/8/8/8/8/8 b - - 0 z").err(), Some(FenError::InvalidFullmoveNumber));
}

#[test]
fn fen_from_str_refuses_a_ninth_rank() {
    let r = Board::from_str("8/8/8/8/8/8/8/8/8 w - - 0 1");
    assert_eq!(r.err(), Some(FenError::InvalidBoard));
    // a bad rank among the first eight is reported before the ninth is reached
    let r = Board::from_str("8/8/8/8/8/8/8/7q/8 w - - 0 1");
    assert_eq!(r.err(), Some(FenError::InvalidBoard));
    let r = Board::from_str("8/8/8/8/8/8/8/7z/8 w - - 0 1");
    assert_eq!(r.err(), Some(FenError::InvalidPiece('z')));
}

#[test]
fn fen_writes_en_passant_off_ranks_3_and_6_as_dash() {
    let mut board = Board::default();
    board.ep_square = Square(28);
    assert_eq!(board.to_string(), "8/8/8/8/8/8/8/8 w - - 0 1");
    board.ep_square = Square(200);
    assert_eq!(board.to_string(), "8/8/8/8/8/8/8/8 w - - 0 1");
}

#[test]
fn fen_white_space_around_fields_reads_alike() {
    let plain = "r3k2r/8/8/8/8/8/8/R3K2R b Kq - 4 9";
    let spaced = "\n r3k2r/8/8/8/8/8/8/R3K2R \t b   Kq\r\n-  4 9\u{2028}";
    let a = read(plain).expect("valid fen");
    let b = read(spaced).expect("valid fen");
    assert_eq!(a.mailbox, b.mailbox);
    assert_eq!((a.white, a.black, a.rooks, a.kings), (b.white, b.black, b.rooks, b.kings));
    assert_eq!((a.white_to_move, a.castling, a.ep_square), (b.white_to_move, b.castling, b.ep_square));
    assert_eq!((a.halfmove_clock, a.fullmove_number), (b.halfmove_clock, b.fullmove_number));
    assert_eq!(read("8/8/8/8/8/8/8/8 w - - 0").err(), read("  8/8/8/8/8/8/8/8\tw - -  0 ").err());
}

#[test]
fn fen_non_canonical_fields_are_written_canonically() {
    let board = read("4k3/8/8/8/8/8/8/4K3 w qK - +5 007").expect("valid fen");
    assert_eq!(board.to_string(), "4k3/8/8/8/8/8/8/4K3 w Kq - 5 7");
    let board = read("71/8/8/8/8/8/8/8 w KK - 0 1").expect("valid fen");
    assert_eq!(board.to_string(), "8/8/8/8/8/8/8/8 w K - 0 1");
}

#[test]
fn en_passant_field_of_algebraic_names() {
    for file in 0..8u8 {
        for rank in [2u8, 5u8] {
            let sq = Square::from_rank_file(rank, file);
            let name: Vec<char> = sq.to_algebraic().chars().collect();
            let mut board = Board::default();
            assert_eq!(parse_en_passant(&mut board, &name), Ok(()));
            assert_eq!(board.ep_square, sq);
        }
    }
    let mut board = Board::default();
    assert_eq!(parse_en_passant(&mut board, &vec!['d', '6']), Ok(()));
    assert_eq!(board.ep_square, Square(43));
    assert_eq!(parse_en_passant(&mut board, &vec!['e', '4']), Err(FenError::InvalidEnPassant));
    assert_eq!(board.ep_square, Square(43));
}

#[test]
fn fen_letters_name_their_pieces() {
    let pieces = [Piece::Pawn, Piece::Knight, Piece::Bishop, Piece::Rook, Piece::Queen, Piece::King];
    for piece in pieces {
        for color in [Color::White, Color::Black] {
            let letter = piece_and_color_to_fen_piece(piece, color);
            assert_eq!(fen_piece_to_piece_and_color(letter), Ok((piece, color)));
        }
    }
    assert_eq!(piece_and_color_to_fen_piece(Piece::Knight, Color::White), 'N');
    assert_eq!(fen_piece_to_piece_and_color('x'), Err(FenError::InvalidPiece('x')));
}
