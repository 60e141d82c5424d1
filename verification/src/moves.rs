//! Pseudo-legal move generation.
//!
//! The attack sets of single pieces come from `attacks` and are re-exported
//! here.
//!
//! The moves come in a fixed order: knights, bishops, rooks, queens and the
//! king, each piece taken by ascending square and its targets by ascending
//! square; then the pawns: single pushes, double pushes, captures toward the
//! a-file side, captures toward the h-file side, promotions (four per target
//! square) and en-passant captures. `pseudo_moves` states that list.
use vstd::prelude::*;

use crate::bits::{
    bit_pred, bit_squares, has_bit, lemma_bit_ops, lemma_bit_shl, lemma_bit_shr, lemma_bit_squares_pop, lemma_bit_squares_zero,
    lemma_meets_single_shift, lemma_squares_from_ext, lemma_squares_from_props, squares,
};
use crate::board::{piece_bb, Board};
pub use crate::attacks::{bishop_attacks, king_attacks, knight_attacks, rook_attacks};
use crate::attacks::{bishop_ray, king_step, knight_step, rook_ray};
use crate::types::{
    Move, MoveType, Moves, Piece, Square, A_FILE, H_FILE, NO_SQUARE_INDEX, RANK_1, RANK_4, RANK_5,
    RANK_8,
};

verus! {

broadcast use vstd::seq::Seq::lemma_flatten_push;

/// The pieces of the side to move.
pub open spec fn side(b: Board) -> u64 {
    if b.white_to_move {
        b.white
    } else {
        b.black
    }
}

/// The pieces of the other side.
pub open spec fn enemy(b: Board) -> u64 {
    if b.white_to_move {
        b.black
    } else {
        b.white
    }
}

/// All pieces.
pub open spec fn occupancy(b: Board) -> u64 {
    side(b) | enemy(b)
}

/// Square `s` holds a piece of the side to move.
pub open spec fn own(b: Board, s: int) -> bool {
    has_bit(side(b), s as u64)
}

/// Square `s` holds a piece of the other side.
pub open spec fn foe(b: Board, s: int) -> bool {
    has_bit(enemy(b), s as u64)
}

/// Square `s` holds no piece of either side.
pub open spec fn vacant(b: Board, s: int) -> bool {
    !own(b, s) && !foe(b, s)
}

/// The squares that `piece` on `from` attacks, given the occupied squares.
pub open spec fn attack_pred(piece: Piece, from: u8, occ: u64) -> spec_fn(int) -> bool {
    |s: int|
        match piece {
            Piece::Knight => knight_step(from as int, s),
            Piece::Bishop => bishop_ray(from as int, occ, s),
            Piece::Rook => rook_ray(from as int, occ, s),
            Piece::Queen => bishop_ray(from as int, occ, s) || rook_ray(from as int, occ, s),
            Piece::King => king_step(from as int, s),
            Piece::Pawn => false,
        }
}

/// A move from `from` to `to`, a capture when `them` holds `to`.
pub open spec fn step_move(from: u8, to: u8, them: u64) -> Move {
    Move {
        from: Square(from),
        to: Square(to),
        kind: if has_bit(them, to as u64) {
            MoveType::Capture
        } else {
            MoveType::Quiet
        },
    }
}

/// The squares that `piece` on `from` may move to: attacked and not held
/// by the side to move.
pub open spec fn target_pred(b: Board, piece: Piece, from: u8) -> spec_fn(int) -> bool {
    |s: int| attack_pred(piece, from, occupancy(b))(s) && !own(b, s)
}

/// The moves of `piece` on `from`, by ascending target square.
pub open spec fn moves_from(b: Board, piece: Piece, from: u8) -> Seq<Move> {
    squares(target_pred(b, piece, from)).map_values(|to: u8| step_move(from, to, enemy(b)))
}

/// The squares that hold a `piece` of the side to move.
pub open spec fn origin_pred(b: Board, piece: Piece) -> spec_fn(int) -> bool {
    |s: int| has_bit(piece_bb(b, piece), s as u64) && own(b, s)
}

/// The moves of every `piece` of the side to move, by ascending origin.
pub open spec fn piece_moves(b: Board, piece: Piece) -> Seq<Move> {
    squares(origin_pred(b, piece)).map_values(|from: u8| moves_from(b, piece, from)).flatten()
}

/// Appends a move from `from` to each square of `attacks`, by ascending
/// square: a capture where `them` holds the square, a quiet move elsewhere.
fn push_moves(moves: &mut Moves, from: u8, attacks: u64, them: u64)
    ensures
        final(moves).0@ == old(moves).0@ + bit_squares(attacks).map_values(
            |to: u8| step_move(from, to, them),
        ),
{
    let ghost full = attacks;
    let ghost start = moves.0@;
    let ghost mut done: Seq<u8> = seq![];
    let mut attacks = attacks;
    while attacks != 0
        invariant
            bit_squares(full) == done + bit_squares(attacks),
            moves.0@ == start + done.map_values(|to: u8| step_move(from, to, them)),
        decreases attacks,
    {
        let to = attacks.trailing_zeros() as u8;
        proof {
            lemma_bit_squares_pop(attacks);
            lemma_meets_single_shift(to, them);
        }
        attacks &= attacks - 1;
        let kind = if (1u64 << to) & them != 0 {
            MoveType::Capture
        } else {
            MoveType::Quiet
        };
        moves.0.push(Move { from: Square(from), to: Square(to), kind });
        proof {
            assert(done.push(to).map_values(|t: u8| step_move(from, t, them)) =~= done.map_values(
                |t: u8| step_move(from, t, them),
            ).push(step_move(from, to, them)));
            assert(bit_squares(full) =~= done.push(to) + bit_squares(attacks));
            done = done.push(to);
        }
    }
    proof {
        lemma_bit_squares_zero();
        assert(bit_squares(full) =~= done);
    }
}

/// The squares attacked by `piece` (not a pawn) on `from`.
fn piece_attacks(piece: Piece, from: u8, occupied: u64) -> (r: u64)
    requires
        piece != Piece::Pawn,
    ensures
        forall|s: u64| s < 64 ==> (#[trigger] has_bit(r, s) == attack_pred(piece, from, occupied)(s as int)),
{
    match piece {
        Piece::Knight => knight_attacks(from),
        Piece::Bishop => bishop_attacks(from, occupied),
        Piece::Rook => rook_attacks(from, occupied),
        Piece::Queen => {
            let b = bishop_attacks(from, occupied);
            let r = rook_attacks(from, occupied);
            proof {
                assert forall|s: u64| s < 64 implies (#[trigger] has_bit(b | r, s) == attack_pred(piece, from, occupied)(s as int)) by {
                    lemma_bit_ops(b, r, s);
                }
            }
            b | r
        },
        Piece::King => king_attacks(from),
        Piece::Pawn => 0,
    }
}

/// Appends the moves of each piece on a square of `pieces`, by ascending
/// origin square.
fn push_piece_moves(
    moves: &mut Moves,
    piece: Piece,
    pieces: u64,
    us: u64,
    them: u64,
    occupied: u64,
    Ghost(b): Ghost<Board>,
)
    requires
        piece != Piece::Pawn,
        us == side(b),
        them == enemy(b),
        occupied == occupancy(b),
        forall|s: u64| s < 64 ==> (#[trigger] has_bit(pieces, s) == origin_pred(b, piece)(s as int)),
    ensures
        final(moves).0@ == old(moves).0@ + piece_moves(b, piece),
{
    let ghost full = pieces;
    let ghost start = moves.0@;
    let ghost mut done: Seq<u8> = seq![];
    let mut pieces = pieces;
    while pieces != 0
        invariant
            piece != Piece::Pawn,
            us == side(b),
            them == enemy(b),
            occupied == occupancy(b),
            bit_squares(full) == done + bit_squares(pieces),
            moves.0@ == start + done.map_values(|f: u8| moves_from(b, piece, f)).flatten(),
        decreases pieces,
    {
        let from = pieces.trailing_zeros() as u8;
        proof {
            lemma_bit_squares_pop(pieces);
        }
        pieces &= pieces - 1;
        let att = piece_attacks(piece, from, occupied);
        let attacks = att & !us;
        let ghost before = moves.0@;
        push_moves(moves, from, attacks, them);
        proof {
            assert forall|s: int| 0 <= s < 64 implies #[trigger] bit_pred(attacks)(s) == target_pred(b, piece, from)(s) by {
                lemma_bit_ops(att, !us, s as u64);
                lemma_bit_ops(us, us, s as u64);
            }
            lemma_squares_from_ext(bit_pred(attacks), target_pred(b, piece, from), 0);
            let g = |f: u8| moves_from(b, piece, f);
            assert(done.push(from).map_values(g) =~= done.map_values(g).push(g(from)));
            assert(bit_squares(full) =~= done.push(from) + bit_squares(pieces));
            done = done.push(from);
        }
    }
    proof {
        lemma_bit_squares_zero();
        assert(bit_squares(full) =~= done);
        assert forall|s: int| 0 <= s < 64 implies #[trigger] bit_pred(full)(s) == origin_pred(b, piece)(s) by {
        }
        lemma_squares_from_ext(bit_pred(full), origin_pred(b, piece), 0);
    }
}

/// Square `s` holds a pawn of the side to move.
pub open spec fn pawn_at(b: Board, s: int) -> bool {
    0 <= s < 64 && has_bit(b.pawns, s as u64) && own(b, s)
}

/// The square `d` ranks-and-files behind `to` along the direction in which
/// the side (`white` or not) advances: `to - d` for white, `to + d` for
/// black.
pub open spec fn origin(to: int, white: bool, d: int) -> int {
    if white {
        to - d
    } else {
        to + d
    }
}

/// Distance of a pawn capture: toward the a-file side (`left`) a white pawn
/// gains 7 and a black pawn loses 9; toward the h-file side, 9 and 7.
pub open spec fn cap_dist(white: bool, left: bool) -> int {
    if white == left {
        7
    } else {
        9
    }
}

/// `to` lies on the promotion rank of the side.
pub open spec fn last_rank(white: bool, to: int) -> bool {
    if white {
        to >= 56
    } else {
        to < 8
    }
}

/// `to` lies on the rank that a double push of the side reaches.
pub open spec fn double_rank(white: bool, to: int) -> bool {
    if white {
        24 <= to < 32
    } else {
        32 <= to < 40
    }
}

/// A pawn of the side can push one square forward onto the empty `to`.
pub open spec fn pawn_push(b: Board, white: bool, to: int) -> bool {
    0 <= to < 64 && pawn_at(b, origin(to, white, 8)) && vacant(b, to)
}

/// A pawn of the side can capture on `to`, toward the a-file side when
/// `left` is set; the capture may not wrap around the board's edge.
pub open spec fn pawn_capture(b: Board, white: bool, left: bool, to: int) -> bool {
    &&& 0 <= to < 64
    &&& pawn_at(b, origin(to, white, cap_dist(white, left)))
    &&& foe(b, to)
    &&& (if left {
        to % 8 != 7
    } else {
        to % 8 != 0
    })
}

/// Targets of single pushes that do not promote.
pub open spec fn single_targets(b: Board, white: bool) -> spec_fn(int) -> bool {
    |to: int| pawn_push(b, white, to) && !last_rank(white, to)
}

/// Targets of double pushes: the pawn stands two ranks behind, and both
/// squares in front of it are empty.
pub open spec fn double_targets(b: Board, white: bool) -> spec_fn(int) -> bool {
    |to: int| double_rank(white, to) && pawn_push(b, white, origin(to, white, 8)) && vacant(b, to)
}

/// Targets of captures that do not promote.
pub open spec fn capture_targets(b: Board, white: bool, left: bool) -> spec_fn(int) -> bool {
    |to: int| pawn_capture(b, white, left, to) && !last_rank(white, to)
}

/// Targets of promotions, by push or by capture.
pub open spec fn promotion_targets(b: Board, white: bool) -> spec_fn(int) -> bool {
    |to: int|
        last_rank(white, to) && (pawn_push(b, white, to) || pawn_capture(b, white, true, to)
            || pawn_capture(b, white, false, to))
}

/// The origin used for a promotion on `to`: the push if there is one, else
/// the capture from the a-file side, else the one from the h-file side.
pub open spec fn promo_origin(b: Board, white: bool, to: int) -> int {
    if pawn_push(b, white, to) {
        origin(to, white, 8)
    } else if pawn_capture(b, white, true, to) {
        origin(to, white, cap_dist(white, true))
    } else {
        origin(to, white, cap_dist(white, false))
    }
}

/// A pawn of the side on `from` may capture en passant on square `e`.
pub open spec fn ep_attacker(b: Board, white: bool, e: int, from: int) -> bool {
    &&& e < 64
    &&& pawn_at(b, from)
    &&& ((from == origin(e, white, cap_dist(white, false)) && from % 8 != 7) || (from == origin(
        e,
        white,
        cap_dist(white, true),
    ) && from % 8 != 0))
}

/// Origins of en-passant captures on square `e`.
pub open spec fn ep_origins(b: Board, white: bool, e: int) -> spec_fn(int) -> bool {
    |from: int| ep_attacker(b, white, e, from)
}

/// A pawn move to `to` from `d` squares behind it.
pub open spec fn pawn_move(to: u8, white: bool, d: int, kind: MoveType) -> Move {
    Move { from: Square(origin(to as int, white, d) as u8), to: Square(to), kind }
}

/// The four promotions from `from` to `to`: queen, rook, bishop, knight.
pub open spec fn promotion_moves(from: int, to: u8) -> Seq<Move> {
    seq![
        Move { from: Square(from as u8), to: Square(to), kind: MoveType::Promotion(Piece::Queen) },
        Move { from: Square(from as u8), to: Square(to), kind: MoveType::Promotion(Piece::Rook) },
        Move { from: Square(from as u8), to: Square(to), kind: MoveType::Promotion(Piece::Bishop) },
        Move { from: Square(from as u8), to: Square(to), kind: MoveType::Promotion(Piece::Knight) },
    ]
}

/// En-passant captures: none unless the board names an en-passant square.
pub open spec fn ep_moves(b: Board) -> Seq<Move> {
    if b.ep_square.0 != 64 {
        squares(ep_origins(b, b.white_to_move, b.ep_square.0 as int)).map_values(
            |from: u8| Move { from: Square(from), to: b.ep_square, kind: MoveType::EnPassant },
        )
    } else {
        seq![]
    }
}

/// The pawn moves of the side to move.
pub open spec fn pawn_moves(b: Board) -> Seq<Move> {
    let w = b.white_to_move;
    squares(single_targets(b, w)).map_values(|to: u8| pawn_move(to, w, 8, MoveType::Quiet))
        + squares(double_targets(b, w)).map_values(
        |to: u8| pawn_move(to, w, 16, MoveType::DoublePush),
    ) + squares(capture_targets(b, w, true)).map_values(
        |to: u8| pawn_move(to, w, cap_dist(w, true), MoveType::Capture),
    ) + squares(capture_targets(b, w, false)).map_values(
        |to: u8| pawn_move(to, w, cap_dist(w, false), MoveType::Capture),
    ) + squares(promotion_targets(b, w)).map_values(
        |to: u8| promotion_moves(promo_origin(b, w, to as int), to),
    ).flatten() + ep_moves(b)
}

/// All pseudo-legal moves of the side to move, in generation order.
pub open spec fn pseudo_moves(b: Board) -> Seq<Move> {
    piece_moves(b, Piece::Knight) + piece_moves(b, Piece::Bishop) + piece_moves(b, Piece::Rook)
        + piece_moves(b, Piece::Queen) + piece_moves(b, Piece::King) + pawn_moves(b)
}

/// Appends, for each square `to` of `targets` by ascending square, the
/// move of `kind` from `dist` squares behind it.
fn push_pawn_moves(
    moves: &mut Moves,
    targets: u64,
    white: bool,
    dist: u8,
    kind: MoveType,
    Ghost(p): Ghost<spec_fn(int) -> bool>,
)
    requires
        dist <= 16,
        forall|s: u64| s < 64 ==> (#[trigger] has_bit(targets, s) == p(s as int)),
        forall|s: int| 0 <= s < 64 && #[trigger] p(s) ==> if white { s >= dist } else { s + dist < 64 },
    ensures
        final(moves).0@ == old(moves).0@ + squares(p).map_values(|to: u8| pawn_move(to, white, dist as int, kind)),
{
    let ghost full = targets;
    let ghost start = moves.0@;
    let ghost mut done: Seq<u8> = seq![];
    let mut targets = targets;
    proof {
        assert forall|s: int| 0 <= s < 64 implies #[trigger] bit_pred(full)(s) == p(s) by {}
        lemma_squares_from_ext(bit_pred(full), p, 0);
    }
    while targets != 0
        invariant
            dist <= 16,
            forall|s: u64| s < 64 ==> (#[trigger] has_bit(full, s) == p(s as int)),
            forall|s: int| 0 <= s < 64 && #[trigger] p(s) ==> if white { s >= dist } else { s + dist < 64 },
            bit_squares(full) == done + bit_squares(targets),
            bit_squares(full) == squares(p),
            moves.0@ == start + done.map_values(|to: u8| pawn_move(to, white, dist as int, kind)),
        decreases targets,
    {
        let to = targets.trailing_zeros() as u8;
        proof {
            lemma_bit_squares_pop(targets);
            lemma_squares_from_props(p, 0);
            assert(squares(p)[done.len() as int] == to);
            assert(p(to as int));
        }
        targets &= targets - 1;
        let from = if white { to - dist } else { to + dist };
        moves.0.push(Move { from: Square(from), to: Square(to), kind });
        proof {
            let g = |t: u8| pawn_move(t, white, dist as int, kind);
            assert(done.push(to).map_values(g) =~= done.map_values(g).push(g(to)));
            assert(bit_squares(full) =~= done.push(to) + bit_squares(targets));
            done = done.push(to);
        }
    }
    proof {
        lemma_bit_squares_zero();
        assert(bit_squares(full) =~= done);
    }
}

/// Appends the four promotions for each square `to` of `targets`, by
/// ascending square. The pawn comes from the push when `single_push` holds
/// `to`, else from the a-file side when `cap_left` holds it, else from the
/// h-file side.
fn push_promotions(
    moves: &mut Moves,
    targets: u64,
    single_push: u64,
    cap_left: u64,
    white: bool,
    Ghost(b): Ghost<Board>,
)
    requires
        white == b.white_to_move,
        forall|s: u64| s < 64 ==> (#[trigger] has_bit(targets, s) == promotion_targets(b, white)(s as int)),
        forall|s: u64| s < 64 ==> (#[trigger] has_bit(single_push, s) == pawn_push(b, white, s as int)),
        forall|s: u64| s < 64 ==> (#[trigger] has_bit(cap_left, s) == pawn_capture(b, white, true, s as int)),
    ensures
        final(moves).0@ == old(moves).0@ + squares(promotion_targets(b, white)).map_values(
            |to: u8| promotion_moves(promo_origin(b, white, to as int), to),
        ).flatten(),
{
    let ghost p = promotion_targets(b, white);
    let ghost g = |to: u8| promotion_moves(promo_origin(b, white, to as int), to);
    let ghost full = targets;
    let ghost start = moves.0@;
    let ghost mut done: Seq<u8> = seq![];
    let mut targets = targets;
    proof {
        assert forall|s: int| 0 <= s < 64 implies #[trigger] bit_pred(full)(s) == p(s) by {}
        lemma_squares_from_ext(bit_pred(full), p, 0);
    }
    while targets != 0
        invariant
            white == b.white_to_move,
            p == promotion_targets(b, white),
            g == (|to: u8| promotion_moves(promo_origin(b, white, to as int), to)),
            forall|s: u64| s < 64 ==> (#[trigger] has_bit(full, s) == p(s as int)),
            forall|s: u64| s < 64 ==> (#[trigger] has_bit(single_push, s) == pawn_push(b, white, s as int)),
            forall|s: u64| s < 64 ==> (#[trigger] has_bit(cap_left, s) == pawn_capture(b, white, true, s as int)),
            bit_squares(full) == done + bit_squares(targets),
            bit_squares(full) == squares(p),
            moves.0@ == start + done.map_values(g).flatten(),
        decreases targets,
    {
        let to = targets.trailing_zeros() as u8;
        proof {
            lemma_bit_squares_pop(targets);
            lemma_squares_from_props(p, 0);
            assert(squares(p)[done.len() as int] == to);
            assert(p(to as int));
            assert(has_bit(full, to as u64));
            lemma_meets_single_shift(to, single_push);
            lemma_meets_single_shift(to, cap_left);
        }
        targets &= targets - 1;
        let bb = 1u64 << to;
        let d: u8 = if bb & single_push != 0 {
            8
        } else if bb & cap_left != 0 {
            if white { 7 } else { 9 }
        } else {
            if white { 9 } else { 7 }
        };
        let from = if white { to - d } else { to + d };
        proof {
            assert(from == promo_origin(b, white, to as int));
        }
        moves.0.push(Move { from: Square(from), to: Square(to), kind: MoveType::Promotion(Piece::Queen) });
        moves.0.push(Move { from: Square(from), to: Square(to), kind: MoveType::Promotion(Piece::Rook) });
        moves.0.push(Move { from: Square(from), to: Square(to), kind: MoveType::Promotion(Piece::Bishop) });
        moves.0.push(Move { from: Square(from), to: Square(to), kind: MoveType::Promotion(Piece::Knight) });
        proof {
            assert(done.push(to).map_values(g) =~= done.map_values(g).push(g(to)));
            assert(moves.0@ =~= start + done.map_values(g).flatten() + g(to));
            assert(bit_squares(full) =~= done.push(to) + bit_squares(targets));
            done = done.push(to);
        }
    }
    proof {
        lemma_bit_squares_zero();
        assert(bit_squares(full) =~= done);
    }
}

/// Appends an en-passant capture onto `ep` from each square of `attackers`,
/// by ascending square.
fn push_en_passant(moves: &mut Moves, attackers: u64, ep: Square, Ghost(p): Ghost<spec_fn(int) -> bool>)
    requires
        forall|s: u64| s < 64 ==> (#[trigger] has_bit(attackers, s) == p(s as int)),
    ensures
        final(moves).0@ == old(moves).0@ + squares(p).map_values(
            |from: u8| Move { from: Square(from), to: ep, kind: MoveType::EnPassant },
        ),
{
    let ghost g = |from: u8| Move { from: Square(from), to: ep, kind: MoveType::EnPassant };
    let ghost full = attackers;
    let ghost start = moves.0@;
    let ghost mut done: Seq<u8> = seq![];
    let mut attackers = attackers;
    proof {
        assert forall|s: int| 0 <= s < 64 implies #[trigger] bit_pred(full)(s) == p(s) by {}
        lemma_squares_from_ext(bit_pred(full), p, 0);
    }
    while attackers != 0
        invariant
            g == (|from: u8| Move { from: Square(from), to: ep, kind: MoveType::EnPassant }),
            bit_squares(full) == done + bit_squares(attackers),
            bit_squares(full) == squares(p),
            moves.0@ == start + done.map_values(g),
        decreases attackers,
    {
        let from = attackers.trailing_zeros() as u8;
        proof {
            lemma_bit_squares_pop(attackers);
        }
        attackers &= attackers - 1;
        moves.0.push(Move { from: Square(from), to: ep, kind: MoveType::EnPassant });
        proof {
            assert(done.push(from).map_values(g) =~= done.map_values(g).push(g(from)));
            assert(bit_squares(full) =~= done.push(from) + bit_squares(attackers));
            done = done.push(from);
        }
    }
    proof {
        lemma_bit_squares_zero();
        assert(bit_squares(full) =~= done);
    }
}

/// The file and rank masks that pawn generation uses.
proof fn lemma_masks(s: u64)
    by (bit_vector)
    requires
        s < 64,
    ensures
        has_bit(0x0101010101010101u64, s) == (s % 8 == 0),
        has_bit(0x8080808080808080u64, s) == (s % 8 == 7),
        has_bit(0x00000000000000FFu64, s) == (s < 8),
        has_bit(0x00000000FF000000u64, s) == (24 <= s < 32),
        has_bit(0x000000FF00000000u64, s) == (32 <= s < 40),
        has_bit(0xFF00000000000000u64, s) == (s >= 56),
{
}

proof fn lemma_side_bits(b: Board, us: u64, them: u64, pawns: u64, occupied: u64, s: u64)
    requires
        s < 64,
        us == side(b),
        them == enemy(b),
        pawns == b.pawns & us,
        occupied == us | them,
    ensures
        has_bit(pawns, s) == pawn_at(b, s as int),
        has_bit(!occupied, s) == vacant(b, s as int),
        has_bit(them, s) == foe(b, s as int),
{
    lemma_bit_ops(b.pawns, us, s);
    lemma_bit_ops(occupied, occupied, s);
    lemma_bit_ops(us, them, s);
}

/// Appends the pawn moves of white.
fn push_white_pawn_moves(moves: &mut Moves, board: &Board, pawns: u64, them: u64, occupied: u64)
    requires
        board.white_to_move,
        them == enemy(*board),
        pawns == board.pawns & side(*board),
        occupied == side(*board) | them,
    ensures
        final(moves).0@ == old(moves).0@ + pawn_moves(*board),
{
    let ghost b = *board;
    let ghost us = side(b);
    let ghost start = moves.0@;
    let single_push = (pawns << 8) & !occupied;
    proof {
        assert forall|s: u64| s < 64 implies #[trigger] has_bit(single_push, s) == pawn_push(b, true, s as int) by {
            lemma_bit_ops(pawns << 8, !occupied, s);
            lemma_bit_shl(pawns, 8, s);
            lemma_side_bits(b, us, them, pawns, occupied, s);
            if s >= 8 {
                lemma_side_bits(b, us, them, pawns, occupied, (s - 8) as u64);
            }
        }
    }
    // single push (non-promotion)
    let targets = single_push & !RANK_8;
    proof {
        assert forall|s: u64| s < 64 implies #[trigger] has_bit(targets, s) == single_targets(b, true)(s as int) by {
            lemma_bit_ops(single_push, !RANK_8, s);
            lemma_bit_ops(RANK_8, RANK_8, s);
            lemma_masks(s);
        }
    }
    push_pawn_moves(moves, targets, true, 8, MoveType::Quiet, Ghost(single_targets(b, true)));
    // double push
    let targets = (single_push << 8) & !occupied & RANK_4;
    proof {
        assert forall|s: u64| s < 64 implies #[trigger] has_bit(targets, s) == double_targets(b, true)(s as int) by {
            lemma_bit_ops((single_push << 8) & !occupied, RANK_4, s);
            lemma_bit_ops(single_push << 8, !occupied, s);
            lemma_bit_shl(single_push, 8, s);
            lemma_side_bits(b, us, them, pawns, occupied, s);
            lemma_masks(s);
        }
    }
    push_pawn_moves(moves, targets, true, 16, MoveType::DoublePush, Ghost(double_targets(b, true)));
    // captures (non-promotion)
    let cap_left = (pawns << 7) & them & !H_FILE;
    let cap_right = (pawns << 9) & them & !A_FILE;
    proof {
        assert forall|s: u64| s < 64 implies #[trigger] has_bit(cap_left, s) == pawn_capture(b, true, true, s as int) by {
            lemma_bit_ops((pawns << 7) & them, !H_FILE, s);
            lemma_bit_ops(pawns << 7, them, s);
            lemma_bit_ops(H_FILE, H_FILE, s);
            lemma_bit_shl(pawns, 7, s);
            lemma_side_bits(b, us, them, pawns, occupied, s);
            if s >= 7 {
                lemma_side_bits(b, us, them, pawns, occupied, (s - 7) as u64);
            }
            lemma_masks(s);
        }
        assert forall|s: u64| s < 64 implies #[trigger] has_bit(cap_right, s) == pawn_capture(b, true, false, s as int) by {
            lemma_bit_ops((pawns << 9) & them, !A_FILE, s);
            lemma_bit_ops(pawns << 9, them, s);
            lemma_bit_ops(A_FILE, A_FILE, s);
            lemma_bit_shl(pawns, 9, s);
            lemma_side_bits(b, us, them, pawns, occupied, s);
            if s >= 9 {
                lemma_side_bits(b, us, them, pawns, occupied, (s - 9) as u64);
            }
            lemma_masks(s);
        }
    }
    let targets = cap_left & !RANK_8;
    proof {
        assert forall|s: u64| s < 64 implies #[trigger] has_bit(targets, s) == capture_targets(b, true, true)(s as int) by {
            lemma_bit_ops(cap_left, !RANK_8, s);
            lemma_bit_ops(RANK_8, RANK_8, s);
            lemma_masks(s);
        }
    }
    push_pawn_moves(moves, targets, true, 7, MoveType::Capture, Ghost(capture_targets(b, true, true)));
    let targets = cap_right & !RANK_8;
    proof {
        assert forall|s: u64| s < 64 implies #[trigger] has_bit(targets, s) == capture_targets(b, true, false)(s as int) by {
            lemma_bit_ops(cap_right, !RANK_8, s);
            lemma_bit_ops(RANK_8, RANK_8, s);
            lemma_masks(s);
        }
    }
    push_pawn_moves(moves, targets, true, 9, MoveType::Capture, Ghost(capture_targets(b, true, false)));
    // promotions (push + captures landing on rank 8)
    let promo_targets = (single_push & RANK_8) | (cap_left & RANK_8) | (cap_right & RANK_8);
    proof {
        assert forall|s: u64| s < 64 implies #[trigger] has_bit(promo_targets, s) == promotion_targets(b, true)(s as int) by {
            lemma_bit_ops((single_push & RANK_8) | (cap_left & RANK_8), cap_right & RANK_8, s);
            lemma_bit_ops(single_push & RANK_8, cap_left & RANK_8, s);
            lemma_bit_ops(single_push, RANK_8, s);
            lemma_bit_ops(cap_left, RANK_8, s);
            lemma_bit_ops(cap_right, RANK_8, s);
            lemma_masks(s);
        }
    }
    push_promotions(moves, promo_targets, single_push, cap_left, true, Ghost(b));
    // en passant
    if board.ep_square != Square(NO_SQUARE_INDEX) {
        let ep_bb = board.ep_square.bitboard();
        let attackers = ((ep_bb >> 9) & pawns & !H_FILE) | ((ep_bb >> 7) & pawns & !A_FILE);
        let ghost e = board.ep_square.0 as int;
        proof {
            assert forall|s: u64| s < 64 implies #[trigger] has_bit(attackers, s) == ep_origins(b, true, e)(s as int) by {
                lemma_bit_ops((ep_bb >> 9) & pawns & !H_FILE, (ep_bb >> 7) & pawns & !A_FILE, s);
                lemma_bit_ops((ep_bb >> 9) & pawns, !H_FILE, s);
                lemma_bit_ops((ep_bb >> 7) & pawns, !A_FILE, s);
                lemma_bit_ops(ep_bb >> 9, pawns, s);
                lemma_bit_ops(ep_bb >> 7, pawns, s);
                lemma_bit_ops(H_FILE, H_FILE, s);
                lemma_bit_ops(A_FILE, A_FILE, s);
                lemma_bit_shr(ep_bb, 9, s);
                lemma_bit_shr(ep_bb, 7, s);
                lemma_side_bits(b, us, them, pawns, occupied, s);
                lemma_masks(s);
                if s + 9 < 64 {
                    assert(has_bit(ep_bb, (s + 9) as u64) == (s + 9 == e));
                }
                if s + 7 < 64 {
                    assert(has_bit(ep_bb, (s + 7) as u64) == (s + 7 == e));
                }
            }
        }
        push_en_passant(moves, attackers, board.ep_square, Ghost(ep_origins(b, true, e)));
    }
    proof {
        assert(moves.0@ =~= start + pawn_moves(b));
    }
}

/// Appends the pawn moves of black.
fn push_black_pawn_moves(moves: &mut Moves, board: &Board, pawns: u64, them: u64, occupied: u64)
    requires
        !board.white_to_move,
        them == enemy(*board),
        pawns == board.pawns & side(*board),
        occupied == side(*board) | them,
    ensures
        final(moves).0@ == old(moves).0@ + pawn_moves(*board),
{
    let ghost b = *board;
    let ghost us = side(b);
    let ghost start = moves.0@;
    let single_push = (pawns >> 8) & !occupied;
    proof {
        assert forall|s: u64| s < 64 implies #[trigger] has_bit(single_push, s) == pawn_push(b, false, s as int) by {
            lemma_bit_ops(pawns >> 8, !occupied, s);
            lemma_bit_shr(pawns, 8, s);
            lemma_side_bits(b, us, them, pawns, occupied, s);
            if s + 8 < 64 {
                lemma_side_bits(b, us, them, pawns, occupied, (s + 8) as u64);
            }
        }
    }
    // single push (non-promotion)
    let targets = single_push & !RANK_1;
    proof {
        assert forall|s: u64| s < 64 implies #[trigger] has_bit(targets, s) == single_targets(b, false)(s as int) by {
            lemma_bit_ops(single_push, !RANK_1, s);
            lemma_bit_ops(RANK_1, RANK_1, s);
            lemma_masks(s);
        }
    }
    push_pawn_moves(moves, targets, false, 8, MoveType::Quiet, Ghost(single_targets(b, false)));
    // double push
    let targets = (single_push >> 8) & !occupied & RANK_5;
    proof {
        assert forall|s: u64| s < 64 implies #[trigger] has_bit(targets, s) == double_targets(b, false)(s as int) by {
            lemma_bit_ops((single_push >> 8) & !occupied, RANK_5, s);
            lemma_bit_ops(single_push >> 8, !occupied, s);
            lemma_bit_shr(single_push, 8, s);
            lemma_side_bits(b, us, them, pawns, occupied, s);
            lemma_masks(s);
        }
    }
    push_pawn_moves(moves, targets, false, 16, MoveType::DoublePush, Ghost(double_targets(b, false)));
    // captures (non-promotion)
    let cap_left = (pawns >> 9) & them & !H_FILE;
    let cap_right = (pawns >> 7) & them & !A_FILE;
    proof {
        assert forall|s: u64| s < 64 implies #[trigger] has_bit(cap_left, s) == pawn_capture(b, false, true, s as int) by {
            lemma_bit_ops((pawns >> 9) & them, !H_FILE, s);
            lemma_bit_ops(pawns >> 9, them, s);
            lemma_bit_ops(H_FILE, H_FILE, s);
            lemma_bit_shr(pawns, 9, s);
            lemma_side_bits(b, us, them, pawns, occupied, s);
            if s + 9 < 64 {
                lemma_side_bits(b, us, them, pawns, occupied, (s + 9) as u64);
            }
            lemma_masks(s);
        }
        assert forall|s: u64| s < 64 implies #[trigger] has_bit(cap_right, s) == pawn_capture(b, false, false, s as int) by {
            lemma_bit_ops((pawns >> 7) & them, !A_FILE, s);
            lemma_bit_ops(pawns >> 7, them, s);
            lemma_bit_ops(A_FILE, A_FILE, s);
            lemma_bit_shr(pawns, 7, s);
            lemma_side_bits(b, us, them, pawns, occupied, s);
            if s + 7 < 64 {
                lemma_side_bits(b, us, them, pawns, occupied, (s + 7) as u64);
            }
            lemma_masks(s);
        }
    }
    let targets = cap_left & !RANK_1;
    proof {
        assert forall|s: u64| s < 64 implies #[trigger] has_bit(targets, s) == capture_targets(b, false, true)(s as int) by {
            lemma_bit_ops(cap_left, !RANK_1, s);
            lemma_bit_ops(RANK_1, RANK_1, s);
            lemma_masks(s);
        }
    }
    push_pawn_moves(moves, targets, false, 9, MoveType::Capture, Ghost(capture_targets(b, false, true)));
    let targets = cap_right & !RANK_1;
    proof {
        assert forall|s: u64| s < 64 implies #[trigger] has_bit(targets, s) == capture_targets(b, false, false)(s as int) by {
            lemma_bit_ops(cap_right, !RANK_1, s);
            lemma_bit_ops(RANK_1, RANK_1, s);
            lemma_masks(s);
        }
    }
    push_pawn_moves(moves, targets, false, 7, MoveType::Capture, Ghost(capture_targets(b, false, false)));
    // promotions (push + captures landing on rank 8)
    let promo_targets = (single_push & RANK_1) | (cap_left & RANK_1) | (cap_right & RANK_1);
    proof {
        assert forall|s: u64| s < 64 implies #[trigger] has_bit(promo_targets, s) == promotion_targets(b, false)(s as int) by {
            lemma_bit_ops((single_push & RANK_1) | (cap_left & RANK_1), cap_right & RANK_1, s);
            lemma_bit_ops(single_push & RANK_1, cap_left & RANK_1, s);
            lemma_bit_ops(single_push, RANK_1, s);
            lemma_bit_ops(cap_left, RANK_1, s);
            lemma_bit_ops(cap_right, RANK_1, s);
            lemma_masks(s);
        }
    }
    push_promotions(moves, promo_targets, single_push, cap_left, false, Ghost(b));
    // en passant
    if board.ep_square != Square(NO_SQUARE_INDEX) {
        let ep_bb = board.ep_square.bitboard();
        let attackers = ((ep_bb << 9) & pawns & !A_FILE) | ((ep_bb << 7) & pawns & !H_FILE);
        let ghost e = board.ep_square.0 as int;
        proof {
            assert forall|s: u64| s < 64 implies #[trigger] has_bit(attackers, s) == ep_origins(b, false, e)(s as int) by {
                lemma_bit_ops((ep_bb << 9) & pawns & !A_FILE, (ep_bb << 7) & pawns & !H_FILE, s);
                lemma_bit_ops((ep_bb << 9) & pawns, !A_FILE, s);
                lemma_bit_ops((ep_bb << 7) & pawns, !H_FILE, s);
                lemma_bit_ops(ep_bb << 9, pawns, s);
                lemma_bit_ops(ep_bb << 7, pawns, s);
                lemma_bit_ops(H_FILE, H_FILE, s);
                lemma_bit_ops(A_FILE, A_FILE, s);
                lemma_bit_shl(ep_bb, 9, s);
                lemma_bit_shl(ep_bb, 7, s);
                lemma_side_bits(b, us, them, pawns, occupied, s);
                lemma_masks(s);
                if s >= 9 {
                    assert(has_bit(ep_bb, (s - 9) as u64) == (s - 9 == e));
                }
                if s >= 7 {
                    assert(has_bit(ep_bb, (s - 7) as u64) == (s - 7 == e));
                }
            }
        }
        push_en_passant(moves, attackers, board.ep_square, Ghost(ep_origins(b, false, e)));
    }
    proof {
        assert(moves.0@ =~= start + pawn_moves(b));
    }
}

/// The pseudo-legal moves of the side to move, in the order that
/// `pseudo_moves` states. Castling is not generated, and moves that leave
/// the king in check are not filtered out.
pub fn generate_moves(board: &Board) -> (moves: Moves)
    ensures
        moves.0@ == pseudo_moves(*board),
{
    let ghost b = *board;
    let mut moves = Moves::new();
    let (us, them) = if board.white_to_move {
        (board.white, board.black)
    } else {
        (board.black, board.white)
    };
    let occupied = us | them;
    let knights = board.knights & us;
    let bishops = board.bishops & us;
    let rooks = board.rooks & us;
    let queens = board.queens & us;
    let king = board.kings & us;
    let pawns = board.pawns & us;
    proof {
        assert forall|s: u64| s < 64 implies #[trigger] has_bit(knights, s) == origin_pred(b, Piece::Knight)(s as int) by {
            lemma_bit_ops(board.knights, us, s);
        }
        assert forall|s: u64| s < 64 implies #[trigger] has_bit(bishops, s) == origin_pred(b, Piece::Bishop)(s as int) by {
            lemma_bit_ops(board.bishops, us, s);
        }
        assert forall|s: u64| s < 64 implies #[trigger] has_bit(rooks, s) == origin_pred(b, Piece::Rook)(s as int) by {
            lemma_bit_ops(board.rooks, us, s);
        }
        assert forall|s: u64| s < 64 implies #[trigger] has_bit(queens, s) == origin_pred(b, Piece::Queen)(s as int) by {
            lemma_bit_ops(board.queens, us, s);
        }
        assert forall|s: u64| s < 64 implies #[trigger] has_bit(king, s) == origin_pred(b, Piece::King)(s as int) by {
            lemma_bit_ops(board.kings, us, s);
        }
    }
    push_piece_moves(&mut moves, Piece::Knight, knights, us, them, occupied, Ghost(b));
    push_piece_moves(&mut moves, Piece::Bishop, bishops, us, them, occupied, Ghost(b));
    push_piece_moves(&mut moves, Piece::Rook, rooks, us, them, occupied, Ghost(b));
    push_piece_moves(&mut moves, Piece::Queen, queens, us, them, occupied, Ghost(b));
    push_piece_moves(&mut moves, Piece::King, king, us, them, occupied, Ghost(b));
    if board.white_to_move {
        push_white_pawn_moves(&mut moves, board, pawns, them, occupied);
    } else {
        push_black_pawn_moves(&mut moves, board, pawns, them, occupied);
    }
    proof {
        assert(moves.0@ =~= pseudo_moves(b));
    }
    moves
}

/// Whether `sq` is attacked by the side given by `by_white`. Not yet
/// implemented: it always answers `false`.
pub fn is_attacked(board: &Board, sq: Square, by_white: bool) -> (r: bool)
    ensures
        !r,
{
    false
}

/// What every generated move keeps to: it starts on a square of the side
/// to move; unless en passant, it lands on the board and not on a piece of
/// that side; a capture lands on an enemy piece, and a quiet move or a
/// double push on an empty square.
pub open spec fn move_respects_sides(b: Board, m: Move) -> bool {
    &&& m.from.0 < 64 && own(b, m.from.0 as int)
    &&& m.kind != MoveType::EnPassant ==> m.to.0 < 64 && !own(b, m.to.0 as int)
    &&& m.kind == MoveType::Capture ==> foe(b, m.to.0 as int)
    &&& (m.kind == MoveType::Quiet || m.kind == MoveType::DoublePush) ==> vacant(b, m.to.0 as int)
}

/// Every move of `ms` respects the sides of `b`.
pub open spec fn all_respect_sides(b: Board, ms: Seq<Move>) -> bool {
    forall|i: int| 0 <= i < ms.len() ==> move_respects_sides(b, #[trigger] ms[i])
}

proof fn lemma_all_concat(b: Board, x: Seq<Move>, y: Seq<Move>)
    requires
        all_respect_sides(b, x),
        all_respect_sides(b, y),
    ensures
        all_respect_sides(b, x + y),
{
    assert forall|i: int| 0 <= i < (x + y).len() implies move_respects_sides(b, #[trigger] (x + y)[i]) by {
        if i >= x.len() {
            assert((x + y)[i] == y[i - x.len()]);
        }
    }
}

proof fn lemma_all_flatten(b: Board, ss: Seq<Seq<Move>>)
    requires
        forall|i: int| 0 <= i < ss.len() ==> all_respect_sides(b, #[trigger] ss[i]),
    ensures
        all_respect_sides(b, ss.flatten()),
    decreases ss.len(),
{
    if ss.len() > 0 {
        lemma_all_flatten(b, ss.drop_first());
        assert(all_respect_sides(b, ss[0]));
        lemma_all_concat(b, ss.first(), ss.drop_first().flatten());
    }
}

proof fn lemma_piece_moves_respect(b: Board, piece: Piece)
    ensures
        all_respect_sides(b, piece_moves(b, piece)),
{
    let origins = squares(origin_pred(b, piece));
    let ss = origins.map_values(|from: u8| moves_from(b, piece, from));
    lemma_squares_from_props(origin_pred(b, piece), 0);
    assert forall|i: int| 0 <= i < ss.len() implies all_respect_sides(b, #[trigger] ss[i]) by {
        let from = origins[i];
        assert(origin_pred(b, piece)(from as int));
        let tp = target_pred(b, piece, from);
        lemma_squares_from_props(tp, 0);
        let ms = moves_from(b, piece, from);
        assert(ss[i] == ms);
        assert forall|k: int| 0 <= k < ms.len() implies move_respects_sides(b, #[trigger] ms[k]) by {
            let to = squares(tp)[k];
            assert(tp(to as int));
        }
    }
    lemma_all_flatten(b, ss);
}

proof fn lemma_section_respects(b: Board, p: spec_fn(int) -> bool, white: bool, d: int, kind: MoveType)
    requires
        white == b.white_to_move,
        forall|to: int|
            0 <= to < 64 && #[trigger] p(to) ==> 0 <= origin(to, white, d) < 64 && pawn_at(b, origin(to, white, d))
                && !own(b, to) && (kind == MoveType::Capture ==> foe(b, to)) && ((kind
                == MoveType::Quiet || kind == MoveType::DoublePush) ==> vacant(b, to)),
        kind != MoveType::EnPassant,
    ensures
        all_respect_sides(b, squares(p).map_values(|to: u8| pawn_move(to, white, d, kind))),
{
    lemma_squares_from_props(p, 0);
    let ms = squares(p).map_values(|to: u8| pawn_move(to, white, d, kind));
    assert forall|k: int| 0 <= k < ms.len() implies move_respects_sides(b, #[trigger] ms[k]) by {
        let to = squares(p)[k];
        assert(p(to as int));
    }
}

/// No square holds both a white and a black piece.
pub open spec fn colors_disjoint(b: Board) -> bool {
    forall|s: u64| s < 64 ==> !(#[trigger] has_bit(b.white, s) && has_bit(b.black, s))
}

proof fn lemma_pawn_moves_respect(b: Board)
    requires
        colors_disjoint(b),
    ensures
        all_respect_sides(b, pawn_moves(b)),
{
    let w = b.white_to_move;
    assert forall|to: int| 0 <= to < 64 && foe(b, to) implies !own(b, to) by {
        assert(!(has_bit(b.white, to as u64) && has_bit(b.black, to as u64)));
    }
    lemma_section_respects(b, single_targets(b, w), w, 8, MoveType::Quiet);
    lemma_section_respects(b, double_targets(b, w), w, 16, MoveType::DoublePush);
    lemma_section_respects(b, capture_targets(b, w, true), w, cap_dist(w, true), MoveType::Capture);
    lemma_section_respects(b, capture_targets(b, w, false), w, cap_dist(w, false), MoveType::Capture);
    let pp = promotion_targets(b, w);
    let promos = squares(pp).map_values(|to: u8| promotion_moves(promo_origin(b, w, to as int), to));
    lemma_squares_from_props(pp, 0);
    assert forall|i: int| 0 <= i < promos.len() implies all_respect_sides(b, #[trigger] promos[i]) by {
        let to = squares(pp)[i];
        assert(pp(to as int));
        let ms = promotion_moves(promo_origin(b, w, to as int), to);
        assert forall|k: int| 0 <= k < ms.len() implies move_respects_sides(b, #[trigger] ms[k]) by {}
    }
    lemma_all_flatten(b, promos);
    if b.ep_square.0 != 64 {
        let ep = ep_origins(b, w, b.ep_square.0 as int);
        lemma_squares_from_props(ep, 0);
        let ms = ep_moves(b);
        assert forall|k: int| 0 <= k < ms.len() implies move_respects_sides(b, #[trigger] ms[k]) by {
            let from = squares(ep)[k];
            assert(ep(from as int));
        }
    }
    let a = squares(single_targets(b, w)).map_values(|to: u8| pawn_move(to, w, 8, MoveType::Quiet));
    let bb = squares(double_targets(b, w)).map_values(|to: u8| pawn_move(to, w, 16, MoveType::DoublePush));
    let c = squares(capture_targets(b, w, true)).map_values(|to: u8| pawn_move(to, w, cap_dist(w, true), MoveType::Capture));
    let d = squares(capture_targets(b, w, false)).map_values(|to: u8| pawn_move(to, w, cap_dist(w, false), MoveType::Capture));
    lemma_all_concat(b, a, bb);
    lemma_all_concat(b, a + bb, c);
    lemma_all_concat(b, a + bb + c, d);
    lemma_all_concat(b, a + bb + c + d, promos.flatten());
    lemma_all_concat(b, a + bb + c + d + promos.flatten(), ep_moves(b));
}

/// Every generated move starts on a piece of the side to move; unless en
/// passant, it never lands on a piece of that side; captures land on enemy
/// pieces, quiet moves and double pushes on empty squares. (On a board where
/// a square is both white and black, a pawn may capture onto it.)
pub proof fn lemma_moves_respect_sides(b: Board)
    requires
        colors_disjoint(b),
    ensures
        all_respect_sides(b, pseudo_moves(b)),
{
    lemma_piece_moves_respect(b, Piece::Knight);
    lemma_piece_moves_respect(b, Piece::Bishop);
    lemma_piece_moves_respect(b, Piece::Rook);
    lemma_piece_moves_respect(b, Piece::Queen);
    lemma_piece_moves_respect(b, Piece::King);
    lemma_pawn_moves_respect(b);
    let n = piece_moves(b, Piece::Knight);
    let bi = piece_moves(b, Piece::Bishop);
    let r = piece_moves(b, Piece::Rook);
    let q = piece_moves(b, Piece::Queen);
    let k = piece_moves(b, Piece::King);
    lemma_all_concat(b, n, bi);
    lemma_all_concat(b, n + bi, r);
    lemma_all_concat(b, n + bi + r, q);
    lemma_all_concat(b, n + bi + r + q, k);
    lemma_all_concat(b, n + bi + r + q + k, pawn_moves(b));
}

} // verus!