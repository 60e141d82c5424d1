//! What generated moves are, stated from the board's own fields: each move
//! is a step that the piece on its origin square can make, with the pieces
//! of both colors blocking sliders, and each such step is generated.
use vstd::prelude::*;

use crate::attacks::{bishop_ray, king_step, knight_step, rook_ray};
use crate::bits::{has_bit, lemma_bit_ops, lemma_squares_from_props, squares};
use crate::board::{piece_bb, Board};
use crate::moves::{
    cap_dist, capture_targets, double_targets, enemy, ep_moves, ep_origins, moves_from, occupancy, origin,
    origin_pred, pawn_move, pawn_moves, piece_moves, promo_origin, promotion_moves, promotion_targets,
    pseudo_moves, side, single_targets, target_pred,
};
use crate::types::{file_of, rank_of, Move, MoveType, Piece, Square};

verus! {

/// The squares of the side to move.
pub open spec fn side_bits(b: Board) -> u64 {
    if b.white_to_move {
        b.white
    } else {
        b.black
    }
}

/// The squares of the side not to move.
pub open spec fn other_bits(b: Board) -> u64 {
    if b.white_to_move {
        b.black
    } else {
        b.white
    }
}

/// Square `s` holds no piece of either color.
pub open spec fn empty_at(b: Board, s: int) -> bool {
    !has_bit(b.white, s as u64) && !has_bit(b.black, s as u64)
}

/// A piece other than a pawn on `f` can step to `t`: a knight or king by
/// its step, a bishop, rook or queen along a line on which the pieces of
/// both colors block.
pub open spec fn piece_step(b: Board, f: int, t: int) -> bool {
    let occ = b.white | b.black;
    let fu = f as u64;
    ||| has_bit(b.knights, fu) && knight_step(f, t)
    ||| has_bit(b.bishops, fu) && bishop_ray(f, occ, t)
    ||| has_bit(b.rooks, fu) && rook_ray(f, occ, t)
    ||| has_bit(b.queens, fu) && (bishop_ray(f, occ, t) || rook_ray(f, occ, t))
    ||| has_bit(b.kings, fu) && king_step(f, t)
}

/// A move of a piece other than a pawn: from a square of the side to move
/// to a square not of that side, a capture exactly when the other side
/// holds the target, and a step of the piece on the origin.
pub open spec fn piece_move_ok(b: Board, m: Move) -> bool {
    let f = m.from.0 as int;
    let t = m.to.0 as int;
    &&& f < 64 && t < 64
    &&& has_bit(side_bits(b), f as u64)
    &&& !has_bit(side_bits(b), t as u64)
    &&& (m.kind == MoveType::Quiet || m.kind == MoveType::Capture)
    &&& (m.kind == MoveType::Capture <==> has_bit(other_bits(b), t as u64))
    &&& piece_step(b, f, t)
}

/// The square holds a pawn and no other kind of piece.
pub open spec fn only_pawn(b: Board, f: int) -> bool {
    let fu = f as u64;
    &&& has_bit(b.pawns, fu)
    &&& !has_bit(b.knights, fu) && !has_bit(b.bishops, fu) && !has_bit(b.rooks, fu)
    &&& !has_bit(b.queens, fu) && !has_bit(b.kings, fu)
}

/// The rank one step forward from rank `r` for the side to move.
pub open spec fn ahead(b: Board, r: int) -> int {
    if b.white_to_move {
        r + 1
    } else {
        r - 1
    }
}

/// A pawn move of the side to move: one rank forward onto an empty square
/// of the same file; two ranks forward from the pawn's first rank over two
/// empty squares; one rank forward and one file aside onto a piece of the
/// other side; a promotion onto the last rank, by a push or a capture, to a
/// queen, rook, bishop or knight; or en passant onto the en-passant square.
pub open spec fn pawn_move_ok(b: Board, m: Move) -> bool {
    let f = m.from.0 as int;
    let t = m.to.0 as int;
    let (fr, ff, tr, tf) = (rank_of(f), file_of(f), rank_of(t), file_of(t));
    let beside = tf == ff + 1 || tf == ff - 1;
    let last = if b.white_to_move { 7int } else { 0int };
    &&& f < 64 && t < 64
    &&& has_bit(side_bits(b), f as u64)
    &&& match m.kind {
        MoveType::Quiet => tr == ahead(b, fr) && tf == ff && empty_at(b, t) && tr != last,
        MoveType::DoublePush => {
            &&& fr == (if b.white_to_move { 1int } else { 6int })
            &&& tr == ahead(b, ahead(b, fr)) && tf == ff
            &&& empty_at(b, t) && empty_at(b, ahead(b, fr) * 8 + ff)
        },
        MoveType::Capture => tr == ahead(b, fr) && beside && has_bit(other_bits(b), t as u64) && tr != last,
        MoveType::Promotion(p) => {
            &&& tr == last && tr == ahead(b, fr)
            &&& ((tf == ff && empty_at(b, t)) || (beside && has_bit(other_bits(b), t as u64)))
            &&& (p == Piece::Queen || p == Piece::Rook || p == Piece::Bishop || p == Piece::Knight)
        },
        MoveType::EnPassant => t == b.ep_square.0 && tr == ahead(b, fr) && beside,
        MoveType::Castle => false,
    }
}

/// What the laws say of one generated move.
pub open spec fn move_law(b: Board, m: Move) -> bool {
    &&& !has_bit(b.pawns, m.from.0 as u64) ==> piece_move_ok(b, m)
    &&& only_pawn(b, m.from.0 as int) ==> pawn_move_ok(b, m)
}

/// Every move of `ms` keeps the law.
pub open spec fn all_lawful(b: Board, ms: Seq<Move>) -> bool {
    forall|i: int| 0 <= i < ms.len() ==> move_law(b, #[trigger] ms[i])
}

proof fn lemma_lawful_concat(b: Board, x: Seq<Move>, y: Seq<Move>)
    requires
        all_lawful(b, x),
        all_lawful(b, y),
    ensures
        all_lawful(b, x + y),
{
    assert forall|i: int| 0 <= i < (x + y).len() implies move_law(b, #[trigger] (x + y)[i]) by {
        if i >= x.len() {
            assert((x + y)[i] == y[i - x.len()]);
        } else {
            assert((x + y)[i] == x[i]);
        }
    }
}

proof fn lemma_lawful_flatten(b: Board, ss: Seq<Seq<Move>>)
    requires
        forall|i: int| 0 <= i < ss.len() ==> all_lawful(b, #[trigger] ss[i]),
    ensures
        all_lawful(b, ss.flatten()),
    decreases ss.len(),
{
    if ss.len() > 0 {
        lemma_lawful_flatten(b, ss.drop_first());
        assert(all_lawful(b, ss[0]));
        lemma_lawful_concat(b, ss.first(), ss.drop_first().flatten());
    }
}

proof fn lemma_or_comm(a: u64, c: u64)
    by (bit_vector)
    ensures
        a | c == c | a,
{
}

/// The blockers that generation uses are the pieces of both colors.
proof fn lemma_occupancy_both(b: Board)
    ensures
        occupancy(b) == b.white | b.black,
        side(b) == side_bits(b),
        enemy(b) == other_bits(b),
{
    lemma_or_comm(b.white, b.black);
}

proof fn lemma_piece_moves_lawful(b: Board, piece: Piece)
    requires
        piece != Piece::Pawn,
    ensures
        all_lawful(b, piece_moves(b, piece)),
{
    lemma_occupancy_both(b);
    let origins = squares(origin_pred(b, piece));
    let ss = origins.map_values(|from: u8| moves_from(b, piece, from));
    lemma_squares_from_props(origin_pred(b, piece), 0);
    assert forall|i: int| 0 <= i < ss.len() implies all_lawful(b, #[trigger] ss[i]) by {
        let from = origins[i];
        assert(origin_pred(b, piece)(from as int));
        let tp = target_pred(b, piece, from);
        lemma_squares_from_props(tp, 0);
        let ms = moves_from(b, piece, from);
        assert(ss[i] == ms);
        assert forall|k: int| 0 <= k < ms.len() implies move_law(b, #[trigger] ms[k]) by {
            let to = squares(tp)[k];
            assert(tp(to as int));
            assert(has_bit(piece_bb(b, piece), from as u64));
        }
    }
    lemma_lawful_flatten(b, ss);
}

/// Moves of one section of pawn moves keep the law when each one does.
proof fn lemma_pawn_section(b: Board, p: spec_fn(int) -> bool, w: bool, d: int, kind: MoveType)
    requires
        forall|to: int| 0 <= to < 64 && #[trigger] p(to) ==> move_law(b, pawn_move(to as u8, w, d, kind)),
    ensures
        all_lawful(b, squares(p).map_values(|to: u8| pawn_move(to, w, d, kind))),
{
    lemma_squares_from_props(p, 0);
    let ms = squares(p).map_values(|to: u8| pawn_move(to, w, d, kind));
    assert forall|k: int| 0 <= k < ms.len() implies move_law(b, #[trigger] ms[k]) by {
        let to = squares(p)[k];
        assert(p(to as int));
    }
}

#[verifier::rlimit(40)]
proof fn lemma_pawn_moves_lawful(b: Board)
    ensures
        all_lawful(b, pawn_moves(b)),
{
    lemma_occupancy_both(b);
    let w = b.white_to_move;
    assert forall|to: int| 0 <= to < 64 && #[trigger] single_targets(b, w)(to) implies move_law(
        b,
        pawn_move(to as u8, w, 8, MoveType::Quiet),
    ) by {}
    assert forall|to: int| 0 <= to < 64 && #[trigger] double_targets(b, w)(to) implies move_law(
        b,
        pawn_move(to as u8, w, 16, MoveType::DoublePush),
    ) by {}
    assert forall|to: int| 0 <= to < 64 && #[trigger] capture_targets(b, w, true)(to) implies move_law(
        b,
        pawn_move(to as u8, w, cap_dist(w, true), MoveType::Capture),
    ) by {}
    assert forall|to: int| 0 <= to < 64 && #[trigger] capture_targets(b, w, false)(to) implies move_law(
        b,
        pawn_move(to as u8, w, cap_dist(w, false), MoveType::Capture),
    ) by {}
    lemma_pawn_section(b, single_targets(b, w), w, 8, MoveType::Quiet);
    lemma_pawn_section(b, double_targets(b, w), w, 16, MoveType::DoublePush);
    lemma_pawn_section(b, capture_targets(b, w, true), w, cap_dist(w, true), MoveType::Capture);
    lemma_pawn_section(b, capture_targets(b, w, false), w, cap_dist(w, false), MoveType::Capture);
    let pp = promotion_targets(b, w);
    let promos = squares(pp).map_values(|to: u8| promotion_moves(promo_origin(b, w, to as int), to));
    lemma_squares_from_props(pp, 0);
    assert forall|i: int| 0 <= i < promos.len() implies all_lawful(b, #[trigger] promos[i]) by {
        let to = squares(pp)[i];
        assert(pp(to as int));
        let ms = promotion_moves(promo_origin(b, w, to as int), to);
        assert(promos[i] == ms);
        assert forall|k: int| 0 <= k < ms.len() implies move_law(b, #[trigger] ms[k]) by {}
    }
    lemma_lawful_flatten(b, promos);
    if b.ep_square.0 != 64 {
        let ep = ep_origins(b, w, b.ep_square.0 as int);
        lemma_squares_from_props(ep, 0);
        let ms = ep_moves(b);
        assert forall|k: int| 0 <= k < ms.len() implies move_law(b, #[trigger] ms[k]) by {
            let from = squares(ep)[k];
            assert(ep(from as int));
        }
    } else {
        assert(ep_moves(b) =~= Seq::<Move>::empty());
    }
    let a = squares(single_targets(b, w)).map_values(|to: u8| pawn_move(to, w, 8, MoveType::Quiet));
    let bb = squares(double_targets(b, w)).map_values(|to: u8| pawn_move(to, w, 16, MoveType::DoublePush));
    let c = squares(capture_targets(b, w, true)).map_values(
        |to: u8| pawn_move(to, w, cap_dist(w, true), MoveType::Capture),
    );
    let d = squares(capture_targets(b, w, false)).map_values(
        |to: u8| pawn_move(to, w, cap_dist(w, false), MoveType::Capture),
    );
    lemma_lawful_concat(b, a, bb);
    lemma_lawful_concat(b, a + bb, c);
    lemma_lawful_concat(b, a + bb + c, d);
    lemma_lawful_concat(b, a + bb + c + d, promos.flatten());
    lemma_lawful_concat(b, a + bb + c + d + promos.flatten(), ep_moves(b));
}

/// Every generated move is a move that the piece on its origin can make.
/// From a square without a pawn, it is a step of the piece there, onto a
/// square not of the side to move, with the pieces of both colors blocking
/// bishops, rooks and queens, and a capture exactly when the other side
/// holds the target. From a square that holds only a pawn, it goes one rank
/// forward (two from the first rank over empty squares) onto an empty
/// square of the same file, or one file aside onto a piece of the other
/// side or the en-passant square, and promotes exactly on the last rank.
pub proof fn lemma_generated_moves_lawful(b: Board)
    ensures
        forall|i: int| 0 <= i < pseudo_moves(b).len() ==> move_law(b, #[trigger] pseudo_moves(b)[i]),
{
    lemma_piece_moves_lawful(b, Piece::Knight);
    lemma_piece_moves_lawful(b, Piece::Bishop);
    lemma_piece_moves_lawful(b, Piece::Rook);
    lemma_piece_moves_lawful(b, Piece::Queen);
    lemma_piece_moves_lawful(b, Piece::King);
    lemma_pawn_moves_lawful(b);
    let n = piece_moves(b, Piece::Knight);
    let bi = piece_moves(b, Piece::Bishop);
    let r = piece_moves(b, Piece::Rook);
    let q = piece_moves(b, Piece::Queen);
    let k = piece_moves(b, Piece::King);
    lemma_lawful_concat(b, n, bi);
    lemma_lawful_concat(b, n + bi, r);
    lemma_lawful_concat(b, n + bi + r, q);
    lemma_lawful_concat(b, n + bi + r + q, k);
    lemma_lawful_concat(b, n + bi + r + q + k, pawn_moves(b));
}

proof fn lemma_contains_left(a: Seq<Move>, c: Seq<Move>, x: Move)
    requires
        a.contains(x),
    ensures
        (a + c).contains(x),
{
    let i = choose|i: int| 0 <= i < a.len() && a[i] == x;
    assert((a + c)[i] == x);
}

proof fn lemma_contains_right(a: Seq<Move>, c: Seq<Move>, x: Move)
    requires
        c.contains(x),
    ensures
        (a + c).contains(x),
{
    let i = choose|i: int| 0 <= i < c.len() && c[i] == x;
    assert((a + c)[a.len() + i] == x);
}

proof fn lemma_flatten_contains(ss: Seq<Seq<Move>>, i: int, x: Move)
    requires
        0 <= i < ss.len(),
        ss[i].contains(x),
    ensures
        ss.flatten().contains(x),
    decreases i,
{
    if i == 0 {
        lemma_contains_left(ss.first(), ss.drop_first().flatten(), x);
    } else {
        assert(ss.drop_first()[i - 1] == ss[i]);
        lemma_flatten_contains(ss.drop_first(), i - 1, x);
        lemma_contains_right(ss.first(), ss.drop_first().flatten(), x);
    }
}

proof fn lemma_piece_in_pseudo(b: Board, piece: Piece, x: Move)
    requires
        piece != Piece::Pawn,
        piece_moves(b, piece).contains(x),
    ensures
        pseudo_moves(b).contains(x),
{
    let n = piece_moves(b, Piece::Knight);
    let bi = piece_moves(b, Piece::Bishop);
    let r = piece_moves(b, Piece::Rook);
    let q = piece_moves(b, Piece::Queen);
    let k = piece_moves(b, Piece::King);
    let p = pawn_moves(b);
    if piece == Piece::Knight {
        lemma_contains_left(n, bi, x);
        lemma_contains_left(n + bi, r, x);
        lemma_contains_left(n + bi + r, q, x);
        lemma_contains_left(n + bi + r + q, k, x);
        lemma_contains_left(n + bi + r + q + k, p, x);
    } else if piece == Piece::Bishop {
        lemma_contains_right(n, bi, x);
        lemma_contains_left(n + bi, r, x);
        lemma_contains_left(n + bi + r, q, x);
        lemma_contains_left(n + bi + r + q, k, x);
        lemma_contains_left(n + bi + r + q + k, p, x);
    } else if piece == Piece::Rook {
        lemma_contains_right(n + bi, r, x);
        lemma_contains_left(n + bi + r, q, x);
        lemma_contains_left(n + bi + r + q, k, x);
        lemma_contains_left(n + bi + r + q + k, p, x);
    } else if piece == Piece::Queen {
        lemma_contains_right(n + bi + r, q, x);
        lemma_contains_left(n + bi + r + q, k, x);
        lemma_contains_left(n + bi + r + q + k, p, x);
    } else {
        lemma_contains_right(n + bi + r + q, k, x);
        lemma_contains_left(n + bi + r + q + k, p, x);
    }
}

/// The move from `f` to `t` that a piece other than a pawn makes: a
/// capture when the other side holds `t`, a quiet move otherwise.
pub open spec fn step_to(b: Board, f: int, t: int) -> Move {
    Move {
        from: Square(f as u8),
        to: Square(t as u8),
        kind: if has_bit(other_bits(b), t as u64) {
            MoveType::Capture
        } else {
            MoveType::Quiet
        },
    }
}

proof fn lemma_piece_step_generated(b: Board, piece: Piece, f: int, t: int)
    requires
        piece != Piece::Pawn,
        0 <= f < 64,
        0 <= t < 64,
        has_bit(side_bits(b), f as u64),
        !has_bit(side_bits(b), t as u64),
        has_bit(piece_bb(b, piece), f as u64),
        crate::moves::attack_pred(piece, f as u8, b.white | b.black)(t),
    ensures
        pseudo_moves(b).contains(step_to(b, f, t)),
{
    lemma_occupancy_both(b);
    let op = origin_pred(b, piece);
    assert(op(f));
    lemma_squares_from_props(op, 0);
    let origins = squares(op);
    let i = choose|i: int| 0 <= i < origins.len() && origins[i] == f as u8;
    let ss = origins.map_values(|from: u8| moves_from(b, piece, from));
    let tp = target_pred(b, piece, f as u8);
    assert(tp(t));
    lemma_squares_from_props(tp, 0);
    let targets = squares(tp);
    let k = choose|k: int| 0 <= k < targets.len() && targets[k] == t as u8;
    let ms = moves_from(b, piece, f as u8);
    assert(ss[i] == ms);
    assert(ms[k] == step_to(b, f, t));
    lemma_flatten_contains(ss, i, step_to(b, f, t));
    lemma_piece_in_pseudo(b, piece, step_to(b, f, t));
}

/// Every step that a piece other than a pawn can make is generated: from a
/// square of the side to move, onto a square not of that side, a knight or
/// king by its step, a bishop, rook or queen along a line on which the
/// pieces of both colors block.
pub proof fn lemma_piece_steps_generated(b: Board, f: int, t: int)
    requires
        0 <= f < 64,
        0 <= t < 64,
        has_bit(side_bits(b), f as u64),
        !has_bit(side_bits(b), t as u64),
    ensures
        has_bit(b.knights, f as u64) && knight_step(f, t) ==> pseudo_moves(b).contains(step_to(b, f, t)),
        has_bit(b.bishops, f as u64) && bishop_ray(f, b.white | b.black, t) ==> pseudo_moves(b).contains(
            step_to(b, f, t),
        ),
        has_bit(b.rooks, f as u64) && rook_ray(f, b.white | b.black, t) ==> pseudo_moves(b).contains(
            step_to(b, f, t),
        ),
        has_bit(b.queens, f as u64) && (bishop_ray(f, b.white | b.black, t) || rook_ray(
            f,
            b.white | b.black,
            t,
        )) ==> pseudo_moves(b).contains(step_to(b, f, t)),
        has_bit(b.kings, f as u64) && king_step(f, t) ==> pseudo_moves(b).contains(step_to(b, f, t)),
{
    let occ = b.white | b.black;
    if has_bit(b.knights, f as u64) && knight_step(f, t) {
        lemma_piece_step_generated(b, Piece::Knight, f, t);
    }
    if has_bit(b.bishops, f as u64) && bishop_ray(f, occ, t) {
        lemma_piece_step_generated(b, Piece::Bishop, f, t);
    }
    if has_bit(b.rooks, f as u64) && rook_ray(f, occ, t) {
        lemma_piece_step_generated(b, Piece::Rook, f, t);
    }
    if has_bit(b.queens, f as u64) && (bishop_ray(f, occ, t) || rook_ray(f, occ, t)) {
        lemma_piece_step_generated(b, Piece::Queen, f, t);
    }
    if has_bit(b.kings, f as u64) && king_step(f, t) {
        lemma_piece_step_generated(b, Piece::King, f, t);
    }
}

/// The last rank, where pawns of the side to move promote.
pub open spec fn last_rank_for(b: Board) -> int {
    if b.white_to_move {
        7
    } else {
        0
    }
}

/// The first rank of the pawns of the side to move.
pub open spec fn first_rank_for(b: Board) -> int {
    if b.white_to_move {
        1
    } else {
        6
    }
}

/// `t` lies one rank ahead of `f`, on the same file.
pub open spec fn straight_ahead(b: Board, f: int, t: int) -> bool {
    rank_of(t) == ahead(b, rank_of(f)) && file_of(t) == file_of(f)
}

/// `t` lies one rank ahead of `f`, on a neighbouring file.
pub open spec fn diagonal_ahead(b: Board, f: int, t: int) -> bool {
    rank_of(t) == ahead(b, rank_of(f)) && (file_of(t) == file_of(f) + 1 || file_of(t) == file_of(f) - 1)
}

/// The move from `f` to `t` of the given kind.
pub open spec fn move_of(f: int, t: int, kind: MoveType) -> Move {
    Move { from: Square(f as u8), to: Square(t as u8), kind }
}

proof fn lemma_section_contains(p: spec_fn(int) -> bool, w: bool, d: int, kind: MoveType, t: int)
    requires
        0 <= t < 64,
        p(t),
    ensures
        squares(p).map_values(|to: u8| pawn_move(to, w, d, kind)).contains(pawn_move(t as u8, w, d, kind)),
{
    lemma_squares_from_props(p, 0);
    let k = choose|k: int| 0 <= k < squares(p).len() && squares(p)[k] == t as u8;
    assert(squares(p).map_values(|to: u8| pawn_move(to, w, d, kind))[k] == pawn_move(t as u8, w, d, kind));
}

/// Where in the pawn moves a move lies: 0 single pushes, 1 double pushes,
/// 2 and 3 captures, 4 promotions, 5 en passant.
proof fn lemma_pawn_part_in_pseudo(b: Board, part: int, x: Move)
    requires
        0 <= part < 6,
        ({
            let w = b.white_to_move;
            let parts = seq![
                squares(single_targets(b, w)).map_values(|to: u8| pawn_move(to, w, 8, MoveType::Quiet)),
                squares(double_targets(b, w)).map_values(|to: u8| pawn_move(to, w, 16, MoveType::DoublePush)),
                squares(capture_targets(b, w, true)).map_values(
                    |to: u8| pawn_move(to, w, cap_dist(w, true), MoveType::Capture),
                ),
                squares(capture_targets(b, w, false)).map_values(
                    |to: u8| pawn_move(to, w, cap_dist(w, false), MoveType::Capture),
                ),
                squares(promotion_targets(b, w)).map_values(
                    |to: u8| promotion_moves(promo_origin(b, w, to as int), to),
                ).flatten(),
                ep_moves(b),
            ];
            parts[part].contains(x)
        }),
    ensures
        pseudo_moves(b).contains(x),
{
    let w = b.white_to_move;
    let a = squares(single_targets(b, w)).map_values(|to: u8| pawn_move(to, w, 8, MoveType::Quiet));
    let bb = squares(double_targets(b, w)).map_values(|to: u8| pawn_move(to, w, 16, MoveType::DoublePush));
    let c = squares(capture_targets(b, w, true)).map_values(
        |to: u8| pawn_move(to, w, cap_dist(w, true), MoveType::Capture),
    );
    let d = squares(capture_targets(b, w, false)).map_values(
        |to: u8| pawn_move(to, w, cap_dist(w, false), MoveType::Capture),
    );
    let e = squares(promotion_targets(b, w)).map_values(
        |to: u8| promotion_moves(promo_origin(b, w, to as int), to),
    ).flatten();
    let f = ep_moves(b);
    if part == 0 {
        lemma_contains_left(a, bb, x);
    }
    if part <= 1 {
        if part == 1 {
            lemma_contains_right(a, bb, x);
        }
        lemma_contains_left(a + bb, c, x);
    }
    if part <= 2 {
        if part == 2 {
            lemma_contains_right(a + bb, c, x);
        }
        lemma_contains_left(a + bb + c, d, x);
    }
    if part <= 3 {
        if part == 3 {
            lemma_contains_right(a + bb + c, d, x);
        }
        lemma_contains_left(a + bb + c + d, e, x);
    }
    if part <= 4 {
        if part == 4 {
            lemma_contains_right(a + bb + c + d, e, x);
        }
        lemma_contains_left(a + bb + c + d + e, f, x);
    } else {
        lemma_contains_right(a + bb + c + d + e, f, x);
    }
    assert(pawn_moves(b) == a + bb + c + d + e + f);
    let n = piece_moves(b, Piece::Knight);
    let bi = piece_moves(b, Piece::Bishop);
    let r = piece_moves(b, Piece::Rook);
    let q = piece_moves(b, Piece::Queen);
    let k = piece_moves(b, Piece::King);
    lemma_contains_right(n + bi + r + q + k, pawn_moves(b), x);
}

/// Every step that a pawn of the side to move can make is generated: one
/// rank forward onto an empty square of its file (a promotion to each of
/// queen, rook, bishop and knight on the last rank), two ranks forward from
/// its first rank over two empty squares, one rank forward and one file
/// aside onto a piece of the other side (below the last rank), and en
/// passant onto the en-passant square one rank forward and one file aside.
#[verifier::rlimit(60)]
pub proof fn lemma_pawn_steps_generated(b: Board, f: int, t: int)
    requires
        0 <= f < 64,
        0 <= t < 64,
        has_bit(b.pawns, f as u64),
        has_bit(side_bits(b), f as u64),
    ensures
        straight_ahead(b, f, t) && empty_at(b, t) && rank_of(t) != last_rank_for(b) ==> pseudo_moves(
            b,
        ).contains(move_of(f, t, MoveType::Quiet)),
        straight_ahead(b, f, t) && empty_at(b, t) && rank_of(t) == last_rank_for(b) ==> {
            &&& pseudo_moves(b).contains(move_of(f, t, MoveType::Promotion(Piece::Queen)))
            &&& pseudo_moves(b).contains(move_of(f, t, MoveType::Promotion(Piece::Rook)))
            &&& pseudo_moves(b).contains(move_of(f, t, MoveType::Promotion(Piece::Bishop)))
            &&& pseudo_moves(b).contains(move_of(f, t, MoveType::Promotion(Piece::Knight)))
        },
        rank_of(f) == first_rank_for(b) && rank_of(t) == ahead(b, ahead(b, rank_of(f))) && file_of(t)
            == file_of(f) && empty_at(b, t) && empty_at(b, ahead(b, rank_of(f)) * 8 + file_of(f))
            ==> pseudo_moves(b).contains(move_of(f, t, MoveType::DoublePush)),
        diagonal_ahead(b, f, t) && has_bit(other_bits(b), t as u64) && rank_of(t) != last_rank_for(b)
            ==> pseudo_moves(b).contains(move_of(f, t, MoveType::Capture)),
        diagonal_ahead(b, f, t) && t == b.ep_square.0 ==> pseudo_moves(b).contains(
            move_of(f, t, MoveType::EnPassant),
        ),
{
    lemma_occupancy_both(b);
    let w = b.white_to_move;
    if straight_ahead(b, f, t) && empty_at(b, t) {
        assert(origin(t, w, 8) == f);
        if rank_of(t) != last_rank_for(b) {
            assert(single_targets(b, w)(t));
            lemma_section_contains(single_targets(b, w), w, 8, MoveType::Quiet, t);
            assert(pawn_move(t as u8, w, 8, MoveType::Quiet) == move_of(f, t, MoveType::Quiet));
            lemma_pawn_part_in_pseudo(b, 0, move_of(f, t, MoveType::Quiet));
        } else {
            let pp = promotion_targets(b, w);
            assert(pp(t));
            assert(promo_origin(b, w, t) == f);
            lemma_squares_from_props(pp, 0);
            let k = choose|k: int| 0 <= k < squares(pp).len() && squares(pp)[k] == t as u8;
            let ss = squares(pp).map_values(|to: u8| promotion_moves(promo_origin(b, w, to as int), to));
            let ms = promotion_moves(f, t as u8);
            assert(ss[k] == ms);
            assert(ms[0] == move_of(f, t, MoveType::Promotion(Piece::Queen)));
            assert(ms[1] == move_of(f, t, MoveType::Promotion(Piece::Rook)));
            assert(ms[2] == move_of(f, t, MoveType::Promotion(Piece::Bishop)));
            assert(ms[3] == move_of(f, t, MoveType::Promotion(Piece::Knight)));
            lemma_flatten_contains(ss, k, move_of(f, t, MoveType::Promotion(Piece::Queen)));
            lemma_flatten_contains(ss, k, move_of(f, t, MoveType::Promotion(Piece::Rook)));
            lemma_flatten_contains(ss, k, move_of(f, t, MoveType::Promotion(Piece::Bishop)));
            lemma_flatten_contains(ss, k, move_of(f, t, MoveType::Promotion(Piece::Knight)));
            lemma_pawn_part_in_pseudo(b, 4, move_of(f, t, MoveType::Promotion(Piece::Queen)));
            lemma_pawn_part_in_pseudo(b, 4, move_of(f, t, MoveType::Promotion(Piece::Rook)));
            lemma_pawn_part_in_pseudo(b, 4, move_of(f, t, MoveType::Promotion(Piece::Bishop)));
            lemma_pawn_part_in_pseudo(b, 4, move_of(f, t, MoveType::Promotion(Piece::Knight)));
        }
    }
    if rank_of(f) == first_rank_for(b) && rank_of(t) == ahead(b, ahead(b, rank_of(f))) && file_of(t)
        == file_of(f) && empty_at(b, t) && empty_at(b, ahead(b, rank_of(f)) * 8 + file_of(f)) {
        assert(origin(t, w, 16) == f);
        assert(double_targets(b, w)(t));
        lemma_section_contains(double_targets(b, w), w, 16, MoveType::DoublePush, t);
        assert(pawn_move(t as u8, w, 16, MoveType::DoublePush) == move_of(f, t, MoveType::DoublePush));
        lemma_pawn_part_in_pseudo(b, 1, move_of(f, t, MoveType::DoublePush));
    }
    if diagonal_ahead(b, f, t) && has_bit(other_bits(b), t as u64) && rank_of(t) != last_rank_for(b) {
        if file_of(t) == file_of(f) - 1 {
            assert(origin(t, w, cap_dist(w, true)) == f);
            assert(capture_targets(b, w, true)(t));
            lemma_section_contains(capture_targets(b, w, true), w, cap_dist(w, true), MoveType::Capture, t);
            assert(pawn_move(t as u8, w, cap_dist(w, true), MoveType::Capture) == move_of(f, t, MoveType::Capture));
            lemma_pawn_part_in_pseudo(b, 2, move_of(f, t, MoveType::Capture));
        } else {
            assert(origin(t, w, cap_dist(w, false)) == f);
            assert(capture_targets(b, w, false)(t));
            lemma_section_contains(capture_targets(b, w, false), w, cap_dist(w, false), MoveType::Capture, t);
            assert(pawn_move(t as u8, w, cap_dist(w, false), MoveType::Capture) == move_of(f, t, MoveType::Capture));
            lemma_pawn_part_in_pseudo(b, 3, move_of(f, t, MoveType::Capture));
        }
    }
    if diagonal_ahead(b, f, t) && t == b.ep_square.0 {
        let e = b.ep_square.0 as int;
        let ep = ep_origins(b, w, e);
        assert(ep(f));
        lemma_squares_from_props(ep, 0);
        let k = choose|k: int| 0 <= k < squares(ep).len() && squares(ep)[k] == f as u8;
        assert(b.ep_square == Square(t as u8));
        assert(ep_moves(b)[k] == move_of(f, t, MoveType::EnPassant));
        lemma_pawn_part_in_pseudo(b, 5, move_of(f, t, MoveType::EnPassant));
    }
}

} // verus!
