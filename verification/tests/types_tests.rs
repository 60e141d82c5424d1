use chess_core::types::{
    color_and_piece_to_mailbox, mailbox_to_color_and_piece, no_square, Color, Piece, Square, A_FILE, EMPTY_MAILBOX,
    FILES, H_FILE, RANKS, RANK_1, RANK_8,
};

#[test]
fn mailbox_codes_of_pieces() {
    assert_eq!(color_and_piece_to_mailbox(Piece::Pawn, Color::White), 0);
    assert_eq!(color_and_piece_to_mailbox(Piece::King, Color::White), 5);
    assert_eq!(color_and_piece_to_mailbox(Piece::Pawn, Color::Black), 6);
    assert_eq!(color_and_piece_to_mailbox(Piece::Queen, Color::Black), 10);
    assert_eq!(color_and_piece_to_mailbox(Piece::King, Color::Black), 11);
}

#[test]
fn mailbox_code_reads_back() {
    let pieces = [Piece::Pawn, Piece::Knight, Piece::Bishop, Piece::Rook, Piece::Queen, Piece::King];
    for piece in pieces {
        for color in [Color::White, Color::Black] {
            let code = color_and_piece_to_mailbox(piece, color);
            assert_eq!(mailbox_to_color_and_piece(code), Some((piece, color)));
        }
    }
}

#[test]
fn mailbox_empty_and_out_of_range_values() {
    assert_eq!(mailbox_to_color_and_piece(EMPTY_MAILBOX), None);
    // values past 12 are read modulo 6, as black pieces
    assert_eq!(mailbox_to_color_and_piece(13), Some((Piece::Knight, Color::Black)));
    assert_eq!(mailbox_to_color_and_piece(255), Some((Piece::Rook, Color::Black)));
}

#[test]
fn square_coordinates() {
    let sq = Square::from_rank_file(3, 4);
    assert_eq!(sq, Square(28));
    assert_eq!(sq.rank(), 3);
    assert_eq!(sq.file(), 4);
    assert_eq!(sq.to_index(), 28);
    assert!(sq.is_on_board());
    assert!(!Square(64).is_on_board());
    assert!(Square::is_valid(7, 7));
    assert!(!Square::is_valid(8, 0));
    assert!(!Square::is_valid(0, 8));
}

#[test]
fn square_bitboards() {
    assert_eq!(Square(0).bitboard(), 1);
    assert_eq!(Square(5).bitboard(), 32);
    assert_eq!(Square(63).bitboard(), 0x8000000000000000);
    assert_eq!(Square(64).bitboard(), 0);
    assert_eq!(Square(200).bitboard(), 0);
}

#[test]
fn square_algebraic_names() {
    assert_eq!(Square(0).to_algebraic(), "a1");
    assert_eq!(Square(28).to_algebraic(), "e4");
    assert_eq!(Square(63).to_algebraic(), "h8");
    assert_eq!(Square(43).to_algebraic(), "d6");
}


#[test]
fn every_square_reads_back_its_rank_and_file() {
    for rank in 0..8u8 {
        for file in 0..8u8 {
            let sq = Square::from_rank_file(rank, file);
            assert!(sq.is_on_board());
            assert_eq!(sq.rank(), rank);
            assert_eq!(sq.file(), file);
        }
    }
}

#[test]
fn board_constants() {
    assert_eq!(no_square(), Square(64));
    assert!(!no_square().is_on_board());
    assert_eq!(FILES[0], A_FILE);
    assert_eq!(FILES[7], H_FILE);
    assert_eq!(RANKS[0], RANK_1);
    assert_eq!(RANKS[7], RANK_8);
    assert_eq!(FILES.iter().fold(0, |a, f| a | f), u64::MAX);
    assert_eq!(RANKS.iter().fold(0, |a, r| a | r), u64::MAX);
    for i in 0..8 {
        assert_eq!(FILES[i], 0x0101010101010101u64 << i);
        assert_eq!(RANKS[i], 0xFFu64 << (8 * i));
    }
}
