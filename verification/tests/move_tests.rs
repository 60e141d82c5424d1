use chess_core::board::Board;
use chess_core::moves::{bishop_attacks, generate_moves, is_attacked, king_attacks, knight_attacks, rook_attacks};
use chess_core::types::{Move, MoveType, Moves, Piece, Square};

fn count_moves(fen: &str) -> usize {
    let board = Board::from_fen(fen).expect("valid fen");
    generate_moves(&board).0.len()
}

fn has_move(fen: &str, from: &str, to: &str) -> bool {
    let board = Board::from_fen(fen).expect("valid fen");
    generate_moves(&board).0.iter().any(|mv| {
        mv.from.to_algebraic() == from && mv.to.to_algebraic() == to
    })
}

fn has_move_kind(fen: &str, from: &str, to: &str, kind: &str) -> bool {
    let board = Board::from_fen(fen).expect("valid fen");
    generate_moves(&board).0.iter().any(|mv| {
        mv.from.to_algebraic() == from && mv.to.to_algebraic() == to && match &mv.kind {
            MoveType::Quiet => kind == "quiet",
            MoveType::Capture => kind == "capture",
            MoveType::DoublePush => kind == "double",
            MoveType::EnPassant => kind == "ep",
            MoveType::Promotion(_) => kind == "promo",
            MoveType::Castle => kind == "castle",
        }
    })
}

// --- startpos ---

#[test]
fn startpos_has_20_moves() {
    assert_eq!(count_moves("rnbqkbnr/pppppppp/8/8/8/8/PPPPPPPP/RNBQKBNR w KQkq - 0 1"), 20);
}

// --- knights ---

#[test]
fn knight_center_has_8_moves() {
    // lone white knight on e4, no other pieces
    assert_eq!(count_moves("8/8/8/8/4N3/8/8/8 w - - 0 1"), 8);
}

#[test]
fn knight_corner_has_2_moves() {
    assert_eq!(count_moves("N7/8/8/8/8/8/8/8 w - - 0 1"), 2);
}

// --- bishops ---

#[test]
fn bishop_center_has_13_moves() {
    assert_eq!(count_moves("8/8/8/8/4B3/8/8/8 w - - 0 1"), 13);
}

#[test]
fn bishop_blocked_by_own_pieces() {
    // bishop on e4, own pawns on d3, f3, d5, f5: every diagonal is blocked at once
    let board = Board::from_fen("8/8/8/3P1P2/4B3/3P1P2/8/8 w - - 0 1").expect("valid fen");
    let moves = generate_moves(&board);
    let bishop_moves: Vec<_> = moves.0.iter().filter(|mv| mv.from.to_algebraic() == "e4").collect();
    assert_eq!(bishop_moves.len(), 0);
}

// --- rooks ---

#[test]
fn rook_center_has_14_moves() {
    assert_eq!(count_moves("8/8/8/8/4R3/8/8/8 w - - 0 1"), 14);
}

#[test]
fn rook_captures_enemy() {
    assert_eq!(has_move_kind("8/8/8/8/4Rr2/8/8/8 w - - 0 1", "e4", "f4", "capture"), true);
}

// --- queens ---

#[test]
fn queen_center_has_27_moves() {
    assert_eq!(count_moves("8/8/8/8/4Q3/8/8/8 w - - 0 1"), 27);
}

// --- king ---

#[test]
fn king_center_has_8_moves() {
    assert_eq!(count_moves("8/8/8/8/4K3/8/8/8 w - - 0 1"), 8);
}

#[test]
fn king_corner_has_3_moves() {
    assert_eq!(count_moves("K7/8/8/8/8/8/8/8 w - - 0 1"), 3);
}

// --- pawns ---

#[test]
fn pawn_startpos_double_push() {
    assert_eq!(has_move_kind("8/8/8/8/8/8/4P3/8 w - - 0 1", "e2", "e4", "double"), true);
}

#[test]
fn pawn_not_on_rank2_no_double_push() {
    assert_eq!(has_move_kind("8/8/8/8/8/4P3/8/8 w - - 0 1", "e3", "e5", "double"), false);
}

#[test]
fn pawn_capture() {
    assert_eq!(has_move_kind("8/8/8/8/8/3p4/4P3/8 w - - 0 1", "e2", "d3", "capture"), true);
}

#[test]
fn pawn_blocked_cannot_push() {
    assert_eq!(has_move("8/8/8/8/8/4p3/4P3/8 w - - 0 1", "e2", "e3"), false);
}

#[test]
fn pawn_promotion_emits_4_moves() {
    let board = Board::from_fen("8/4P3/8/8/8/8/8/8 w - - 0 1").expect("valid fen");
    let moves = generate_moves(&board);
    let promos: Vec<_> = moves.0.iter().filter(|mv| {
        mv.from.to_algebraic() == "e7" && matches!(mv.kind, MoveType::Promotion(_))
    }).collect();
    assert_eq!(promos.len(), 4);
}

#[test]
fn en_passant_move_exists() {
    // white pawn on e5, black just pushed d7-d5, ep square is d6
    assert_eq!(has_move_kind("8/8/8/3pP3/8/8/8/8 w - d6 0 1", "e5", "d6", "ep"), true);
}

#[test]
fn black_pawn_moves() {
    // black pawn on e7, black to move
    let board = Board::from_fen("8/4p3/8/8/8/8/8/8 b - - 0 1").expect("valid fen");
    let moves = generate_moves(&board);
    assert_eq!(moves.0.len(), 2); // e6 and e5
}

fn moves_of(fen: &str) -> Vec<Move> {
    let board = Board::from_fen(fen).expect("valid fen");
    generate_moves(&board).0
}

#[test]
fn attack_sets_from_corners() {
    assert_eq!(knight_attacks(0), (1 << 10) | (1 << 17));
    assert_eq!(king_attacks(0), (1 << 1) | (1 << 8) | (1 << 9));
    assert_eq!(king_attacks(63), (1 << 62) | (1 << 55) | (1 << 54));
    assert_eq!(bishop_attacks(0, 0), 0x8040201008040200);
    assert_eq!(rook_attacks(0, 0), 0x01010101010101FE);
}

#[test]
fn slider_attacks_stop_at_the_first_blocker() {
    assert_eq!(rook_attacks(0, 1 << 16), 0x101FE);
    let expected: u64 = [36u64, 45, 18, 9, 0, 34, 41, 48, 20, 13, 6].iter().map(|s| 1u64 << s).sum();
    assert_eq!(bishop_attacks(27, (1 << 45) | (1 << 54)), expected);
}

#[test]
fn attacks_from_off_board_square_use_its_rank_and_file() {
    // square 64 is rank 8 (past the board), file a
    assert_eq!(knight_attacks(64), (1 << 49) | (1 << 58));
    assert_eq!(rook_attacks(64, 0), 0x0101010101010101);
}

#[test]
fn moves_come_by_ascending_target() {
    let moves = moves_of("8/8/8/8/8/8/8/N7 w - - 0 1");
    assert_eq!(moves.len(), 2);
    assert_eq!((moves[0].from, moves[0].to, moves[0].kind), (Square(0), Square(10), MoveType::Quiet));
    assert_eq!((moves[1].from, moves[1].to, moves[1].kind), (Square(0), Square(17), MoveType::Quiet));
}

#[test]
fn black_en_passant_and_push() {
    let moves = moves_of("8/8/8/8/3pP3/8/8/8 b - e3 0 1");
    assert_eq!(moves.len(), 2);
    assert_eq!((moves[0].from, moves[0].to, moves[0].kind), (Square(27), Square(19), MoveType::Quiet));
    assert_eq!((moves[1].from, moves[1].to, moves[1].kind), (Square(27), Square(20), MoveType::EnPassant));
}

#[test]
fn promotion_onto_a_square_two_pawns_attack_comes_from_one_pawn() {
    let moves = moves_of("2r5/1P1P4/8/8/8/8/8/8 w - - 0 1");
    assert_eq!(moves.len(), 12);
    let onto_c8: Vec<&Move> = moves.iter().filter(|mv| mv.to.to_algebraic() == "c8").collect();
    assert_eq!(onto_c8.len(), 4);
    assert!(onto_c8.iter().all(|mv| mv.from.to_algebraic() == "d7"));
    let kinds: Vec<MoveType> = onto_c8.iter().map(|mv| mv.kind).collect();
    assert_eq!(
        kinds,
        vec![
            MoveType::Promotion(Piece::Queen),
            MoveType::Promotion(Piece::Rook),
            MoveType::Promotion(Piece::Bishop),
            MoveType::Promotion(Piece::Knight),
        ]
    );
}

#[test]
fn pawn_captures_do_not_wrap_around_the_board() {
    let moves = moves_of("8/8/8/8/8/p7/7P/8 w - - 0 1");
    assert_eq!(moves.len(), 2);
    assert!(moves.iter().all(|mv| mv.kind != MoveType::Capture));
}

#[test]
fn generated_moves_respect_the_sides() {
    let fen = "r1bqk2r/ppp2ppp/2n2n2/2bpp3/3PP3/2N2N2/PPP2PPP/R1BQKB1R w KQkq d6 0 5";
    let board = Board::from_fen(fen).expect("valid fen");
    let us = board.white;
    let them = board.black;
    for mv in generate_moves(&board).0 {
        assert!(us & mv.from.bitboard() != 0);
        if mv.kind != MoveType::EnPassant {
            assert!(us & mv.to.bitboard() == 0);
        }
        if mv.kind == MoveType::Capture {
            assert!(them & mv.to.bitboard() != 0);
        }
        if mv.kind == MoveType::Quiet || mv.kind == MoveType::DoublePush {
            assert!((us | them) & mv.to.bitboard() == 0);
        }
        assert!(mv.kind != MoveType::Castle);
    }
}

#[test]
fn is_attacked_always_answers_false() {
    let board = Board::from_fen("rnbqkbnr/pppppppp/8/8/8/8/PPPPPPPP/RNBQKBNR w KQkq - 0 1").expect("valid fen");
    assert!(!is_attacked(&board, Square(20), false));
    assert!(!is_attacked(&board, Square(44), true));
}

#[test]
fn generation_reads_the_bitboards_not_the_mailbox() {
    // startpos has bitboards but an empty mailbox
    let board = Board::startpos();
    assert_eq!(generate_moves(&board).0.len(), 20);
}

#[test]
fn moves_iterate_in_list_order() {
    let board = Board::from_fen("8/8/8/8/8/8/4P3/8 w - - 0 1").expect("valid fen");
    let moves = generate_moves(&board);
    let listed: Vec<Move> = moves.0.clone();
    let iterated: Vec<Move> = moves.into_iter().collect();
    assert_eq!(iterated, listed);
    assert_eq!(iterated.len(), 2);
    assert_eq!(Moves::new().into_iter().count(), 0);
}

fn blocker_sets() -> Vec<u64> {
    vec![0, 0x0000_0018_2400_0000, 0x00FF_0000_0000_FF00, 0x8142_2418_1824_4281, 0x55AA_55AA_55AA_55AA, u64::MAX]
}

#[test]
fn more_blockers_never_add_slider_targets() {
    let sets = blocker_sets();
    for from in 0..64u8 {
        for &a in &sets {
            for &b in &sets {
                let (small, big) = (a & b, a | b);
                assert_eq!(bishop_attacks(from, big) & !bishop_attacks(from, small), 0);
                assert_eq!(rook_attacks(from, big) & !rook_attacks(from, small), 0);
            }
        }
    }
}

#[test]
fn slider_attacks_are_symmetric() {
    for occ in blocker_sets() {
        for a in 0..64u8 {
            for b in 0..64u8 {
                let ab = bishop_attacks(a, occ) & (1u64 << b) != 0;
                let ba = bishop_attacks(b, occ) & (1u64 << a) != 0;
                assert_eq!(ab, ba);
                let ab = rook_attacks(a, occ) & (1u64 << b) != 0;
                let ba = rook_attacks(b, occ) & (1u64 << a) != 0;
                assert_eq!(ab, ba);
            }
        }
    }
}

#[test]
fn slider_start_square_bit_does_not_matter() {
    for occ in blocker_sets() {
        for from in 0..64u8 {
            let own = 1u64 << from;
            assert_eq!(bishop_attacks(from, occ | own), bishop_attacks(from, occ & !own));
            assert_eq!(rook_attacks(from, occ | own), rook_attacks(from, occ & !own));
        }
    }
}

#[test]
fn rook_and_bishop_targets_never_overlap() {
    for occ in blocker_sets() {
        for from in 0..64u8 {
            assert_eq!(rook_attacks(from, occ) & bishop_attacks(from, occ), 0);
        }
    }
    // a lone queen on e4: 13 diagonal and 14 straight targets, 27 in all
    let q = bishop_attacks(28, 0) | rook_attacks(28, 0);
    assert_eq!(q.count_ones(), 27);
}
