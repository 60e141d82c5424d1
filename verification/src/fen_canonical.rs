//! FEN strings in canonical form: each such string reads as a board whose
//! FEN text is that very string.
use vstd::prelude::*;

use crate::board::Board;
use crate::fen::{
    board_holds, castling_text, castling_value, cell_code, empties, empty_run, ep_text, ep_value, fen_board,
    fen_char, fen_error, fen_overflows, fen_piece, fen_text, file_letter, filled_cell, mailbox_fen_char,
    parse_placement, parse_rank_spec, parse_ranks, placement_overflows, placement_ranks, placement_text,
    rank_cells, rank_text, rank_text_from, side_value, Cell, FenError,
};
use crate::fen_laws::{
    lemma_castling_roundtrip, lemma_fen_board_representable, lemma_fen_text_words, lemma_placement_split,
    mailbox_valid,
};
use crate::text::{
    decimal, digit_value, digits_value, is_digit, join_on, lemma_decimal_of_digits, lemma_digit_char_value,
    lemma_join_split, parse_unsigned, plain_digits, split_on, words,
};
use crate::types::{lemma_mailbox_code_roundtrip, lemma_square_coords, mailbox_content};

verus! {

/// The FEN letter of a cell, if it holds a piece.
pub open spec fn cell_char(cell: Cell) -> Option<char> {
    match cell {
        None => None,
        Some((p, c)) => Some(fen_char(p, c)),
    }
}

/// FEN text of the cells `f` to 7 of a rank, after a run of `empty` empty
/// cells (as `rank_text_from` writes a rank of a board).
pub open spec fn cells_text_from(cells: Seq<Cell>, f: int, empty: nat) -> Seq<char>
    decreases 8 - f,
{
    if f >= 8 {
        empty_run(empty)
    } else {
        match cell_char(cells[f]) {
            Some(ch) => empty_run(empty) + seq![ch] + cells_text_from(cells, f + 1, 0),
            None => cells_text_from(cells, f + 1, empty + 1),
        }
    }
}

/// A rank in canonical form: it reads as eight cells, and each maximal run
/// of empty squares is written as one digit from 1 to 8.
pub open spec fn rank_canonical(r: Seq<char>) -> bool {
    &&& parse_rank_spec(r) is Ok
    &&& forall|i: int| 0 <= i < r.len() ==> #[trigger] r[i] != '0'
    &&& forall|i: int| 0 <= i < r.len() - 1 ==> !(is_digit(#[trigger] r[i]) && is_digit(r[i + 1]))
}

/// The rank text of a board whose rank `r` shows the letters of `cells`.
proof fn lemma_rank_text_cells(b: Board, r: int, cells: Seq<Cell>, f: int, e: nat)
    requires
        0 <= r < 8,
        0 <= f,
        forall|g: int| 0 <= g < 8 ==> #[trigger] mailbox_fen_char(b.mailbox[r * 8 + g]) == cell_char(cells[g]),
    ensures
        rank_text_from(b, r, f, e) == cells_text_from(cells, f, e),
    decreases 8 - f,
{
    if f < 8 {
        assert(mailbox_fen_char(b.mailbox[r * 8 + f]) == cell_char(cells[f]));
        lemma_rank_text_cells(b, r, cells, f + 1, 0);
        lemma_rank_text_cells(b, r, cells, f + 1, e + 1);
    }
}

/// A run of `k` empty cells adds `k` to the pending run.
proof fn lemma_skip_empties(cells: Seq<Cell>, f: int, k: int, e: nat)
    requires
        0 <= f,
        0 <= k,
        f + k <= 8,
        forall|i: int| f <= i < f + k ==> #[trigger] cells[i] is None,
    ensures
        cells_text_from(cells, f, e) == cells_text_from(cells, f + k, (e + k) as nat),
    decreases k,
{
    if k > 0 {
        assert(cells[f] is None);
        lemma_skip_empties(cells, f + 1, k - 1, e + 1);
    }
}

/// The cells that a prefix of a valid rank reads as are a prefix of the
/// cells of the whole rank.
proof fn lemma_rank_prefix(r: Seq<char>, n: int)
    requires
        0 <= n <= r.len(),
        rank_cells(r, r.len() as int) is Ok,
    ensures
        rank_cells(r, n) is Ok,
        rank_cells(r, n)->Ok_0.len() <= rank_cells(r, r.len() as int)->Ok_0.len(),
        forall|i: int|
            0 <= i < rank_cells(r, n)->Ok_0.len() ==> #[trigger] rank_cells(r, n)->Ok_0[i]
                == rank_cells(r, r.len() as int)->Ok_0[i],
    decreases r.len() - n,
{
    if n < r.len() {
        lemma_rank_prefix(r, n + 1);
        let c = rank_cells(r, n)->Ok_0;
        let c1 = rank_cells(r, n + 1)->Ok_0;
        assert(rank_cells(r, n) is Ok);
        assert forall|i: int| 0 <= i < c.len() implies #[trigger] c[i] == c1[i] by {
            if is_digit(r[n]) {
                assert(c1 == c + empties(digit_value(r[n])));
            } else {
                assert(c1 == c.push(Some(fen_piece(r[n])->Some_0)));
            }
        }
    }
}

/// The letter of a piece that a FEN letter names is that letter.
proof fn lemma_fen_piece_char(c: char)
    requires
        fen_piece(c) is Some,
    ensures
        fen_char(fen_piece(c)->Some_0.0, fen_piece(c)->Some_0.1) == c,
{
}

/// From a boundary of a canonical rank (its start, or just after a piece
/// letter), the cells from there on are written as the rest of the rank.
proof fn lemma_rank_rest(r: Seq<char>, n: int)
    requires
        rank_canonical(r),
        0 <= n <= r.len(),
        n == 0 || !is_digit(r[n - 1]),
    ensures
        rank_cells(r, n) is Ok,
        cells_text_from(parse_rank_spec(r)->Ok_0, rank_cells(r, n)->Ok_0.len() as int, 0) == r.subrange(
            n,
            r.len() as int,
        ),
    decreases r.len() - n,
{
    let len = r.len() as int;
    let cells = parse_rank_spec(r)->Ok_0;
    assert(rank_cells(r, len) == Ok::<Seq<Cell>, FenError>(cells));
    assert(cells.len() == 8);
    lemma_rank_prefix(r, n);
    let cn = rank_cells(r, n)->Ok_0;
    let f = cn.len() as int;
    if n == len {
        assert(r.subrange(n, len) =~= Seq::<char>::empty());
    } else {
        lemma_rank_prefix(r, n + 1);
        let c1 = rank_cells(r, n + 1)->Ok_0;
        if !is_digit(r[n]) {
            let pc = fen_piece(r[n])->Some_0;
            assert(c1 == cn.push(Some(pc)));
            assert(c1[f] == cells[f]);
            lemma_fen_piece_char(r[n]);
            lemma_rank_rest(r, n + 1);
            assert(cells_text_from(cells, f, 0) == empty_run(0) + seq![r[n]] + cells_text_from(cells, f + 1, 0));
            assert(r.subrange(n, len) =~= seq![r[n]] + r.subrange(n + 1, len));
            assert(empty_run(0) + seq![r[n]] + r.subrange(n + 1, len) =~= r.subrange(n, len));
        } else {
            let d = digit_value(r[n]);
            lemma_digit_char_value(r[n]);
            assert(r[n] != '0');
            assert(d >= 1);
            assert(c1 == cn + empties(d));
            assert forall|i: int| f <= i < f + d implies #[trigger] cells[i] is None by {
                assert(c1[i] == cells[i]);
                assert(c1[i] == empties(d)[i - f]);
            }
            lemma_skip_empties(cells, f, d as int, 0);
            assert(decimal(d) == seq![r[n]]);
            if n + 1 == len {
                assert(c1 == cells);
                assert(f + d == 8);
                assert(r.subrange(n, len) =~= seq![r[n]]);
            } else {
                assert(!(is_digit(r[n]) && is_digit(r[n + 1])));
                assert(!is_digit(r[n + 1]));
                lemma_rank_prefix(r, n + 2);
                let c2 = rank_cells(r, n + 2)->Ok_0;
                let pc = fen_piece(r[n + 1])->Some_0;
                assert(c2 == c1.push(Some(pc)));
                assert(c2[f + d] == cells[f + d]);
                lemma_fen_piece_char(r[n + 1]);
                lemma_rank_rest(r, n + 2);
                assert(cells_text_from(cells, f + d, d) == empty_run(d) + seq![r[n + 1]] + cells_text_from(
                    cells,
                    f + d + 1,
                    0,
                ));
                assert(r.subrange(n, len) =~= seq![r[n]] + seq![r[n + 1]] + r.subrange(n + 2, len));
            }
        }
    }
}

/// A canonical rank is the text of the cells it reads as.
pub proof fn lemma_rank_canonical_text(r: Seq<char>)
    requires
        rank_canonical(r),
    ensures
        cells_text_from(parse_rank_spec(r)->Ok_0, 0, 0) == r,
{
    lemma_rank_rest(r, 0);
    assert(rank_cells(r, 0) == Ok::<Seq<Cell>, FenError>(seq![]));
    assert(r.subrange(0, r.len() as int) =~= r);
}

/// A placement field in canonical form: eight canonical ranks separated by
/// `/`.
pub open spec fn placement_canonical(p: Seq<char>) -> bool {
    &&& split_on(p, '/').len() == 8
    &&& forall|i: int| 0 <= i < 8 ==> rank_canonical(#[trigger] split_on(p, '/')[i])
}

/// The castling letters K, Q, k, q, each where its flag is set, in that
/// order.
pub open spec fn castling_letters(wk: bool, wq: bool, bk: bool, bq: bool) -> Seq<char> {
    (if wk { seq!['K'] } else { seq![] }) + (if wq { seq!['Q'] } else { seq![] }) + (if bk {
        seq!['k']
    } else {
        seq![]
    }) + (if bq { seq!['q'] } else { seq![] })
}

/// A castling field in canonical form: `-`, or some of the letters K, Q,
/// k, q, at least one, in that order and without repeats.
pub open spec fn castling_canonical(t: Seq<char>) -> bool {
    ||| t == seq!['-']
    ||| exists|wk: bool, wq: bool, bk: bool, bq: bool|
        (wk || wq || bk || bq) && t == #[trigger] castling_letters(wk, wq, bk, bq)
}

/// An en-passant field in canonical form: `-`, or a file letter followed
/// by `3` or `6`.
pub open spec fn ep_canonical(t: Seq<char>) -> bool {
    ||| t == seq!['-']
    ||| t.len() == 2 && file_letter(t[0]) is Some && (t[1] == '3' || t[1] == '6')
}

/// A clock field in canonical form: decimal digits without sign or leading
/// zero, of value at most `max`.
pub open spec fn clock_canonical(t: Seq<char>, max: nat) -> bool {
    plain_digits(t) && digits_value(t) <= max
}

/// A FEN string in canonical form: six fields separated by single spaces,
/// with no other white space; a canonical placement; `w` or `b`; canonical
/// castling and en-passant fields; a half-move clock of at most 255 and a
/// full-move number of at most 65535, both in canonical decimal.
pub open spec fn fen_canonical(s: Seq<char>) -> bool {
    let f = words(s);
    &&& f.len() == 6
    &&& s == join_on(f, ' ')
    &&& placement_canonical(f[0])
    &&& (f[1] == seq!['w'] || f[1] == seq!['b'])
    &&& castling_canonical(f[2])
    &&& ep_canonical(f[3])
    &&& clock_canonical(f[4], 255)
    &&& clock_canonical(f[5], 65535)
}

proof fn lemma_parse_valid_ranks(rs: Seq<Seq<char>>, n: int)
    requires
        0 <= n <= rs.len(),
        forall|i: int| 0 <= i < rs.len() ==> #[trigger] parse_rank_spec(rs[i]) is Ok,
    ensures
        parse_ranks(rs, n) == Ok::<Seq<Seq<Cell>>, FenError>(
            Seq::new(n as nat, |i: int| parse_rank_spec(rs[i])->Ok_0),
        ),
    decreases n,
{
    if n > 0 {
        lemma_parse_valid_ranks(rs, n - 1);
        assert(parse_rank_spec(rs[n - 1]) is Ok);
        assert(Seq::new((n - 1) as nat, |i: int| parse_rank_spec(rs[i])->Ok_0).push(
            parse_rank_spec(rs[n - 1])->Ok_0,
        ) =~= Seq::new(n as nat, |i: int| parse_rank_spec(rs[i])->Ok_0));
    } else {
        assert(Seq::new(0, |i: int| parse_rank_spec(rs[i])->Ok_0) =~= Seq::<Seq<Cell>>::empty());
    }
}

/// The cells of a canonical placement, rank 8 first.
pub open spec fn canonical_cells(p: Seq<char>) -> Seq<Seq<Cell>> {
    Seq::new(8, |i: int| parse_rank_spec(split_on(p, '/')[i])->Ok_0)
}

proof fn lemma_placement_valid(p: Seq<char>)
    requires
        placement_canonical(p),
    ensures
        parse_placement(p) == Ok::<Seq<Seq<Cell>>, FenError>(canonical_cells(p)),
        !placement_overflows(p),
{
    let rs = placement_ranks(p);
    assert forall|i: int| 0 <= i < rs.len() implies #[trigger] parse_rank_spec(rs[i]) is Ok by {
        assert(rank_canonical(split_on(p, '/')[i]));
    }
    lemma_parse_valid_ranks(rs, 8);
}

proof fn lemma_castle_mask(wk: bool, wq: bool, bk: bool, bq: bool, c: u8)
    by (bit_vector)
    requires
        c == ((if wk { 1u8 } else { 0u8 }) | (if wq { 2u8 } else { 0u8 }) | (if bk { 4u8 } else { 0u8 }) | (
        if bq {
            8u8
        } else {
            0u8
        })),
    ensures
        c < 16,
        (c & 1u8 != 0) == wk,
        (c & 2u8 != 0) == wq,
        (c & 4u8 != 0) == bk,
        (c & 8u8 != 0) == bq,
        (c == 0) == !(wk || wq || bk || bq),
{
}

proof fn lemma_castling_canonical(t: Seq<char>)
    requires
        castling_canonical(t),
    ensures
        castling_value(t) is Some,
        castling_text(castling_value(t)->Some_0) == t,
{
    if t == seq!['-'] {
        assert(castling_value(t) == Some(0u8));
    } else {
        let (wk, wq, bk, bq) = choose|wk: bool, wq: bool, bk: bool, bq: bool|
            (wk || wq || bk || bq) && t == #[trigger] castling_letters(wk, wq, bk, bq);
        let c: u8 = ((if wk { 1u8 } else { 0u8 }) | (if wq { 2u8 } else { 0u8 }) | (if bk { 4u8 } else { 0u8 })
            | (if bq { 8u8 } else { 0u8 }));
        lemma_castle_mask(wk, wq, bk, bq, c);
        assert(castling_text(c) =~= t);
        lemma_castling_roundtrip(c);
    }
}

proof fn lemma_ep_canonical(t: Seq<char>)
    requires
        ep_canonical(t),
    ensures
        ep_value(t) is Some,
        ep_text(ep_value(t)->Some_0) == t,
{
    if t != seq!['-'] {
        let f = file_letter(t[0])->Some_0;
        let rank: u8 = if t[1] == '3' { 2 } else { 5 };
        lemma_square_coords(rank as int, f as int);
        let sq = ep_value(t)->Some_0;
        assert(sq.0 == rank * 8 + f);
        let e = ep_text(sq);
        assert(e[0] == t[0]) by {
            let c = t[0];
            assert(c == 'a' || c == 'b' || c == 'c' || c == 'd' || c == 'e' || c == 'f' || c == 'g'
                || c == 'h');
        }
        assert(e =~= t);
    }
}

proof fn lemma_clock_canonical(t: Seq<char>, max: nat)
    requires
        clock_canonical(t, max),
    ensures
        parse_unsigned(t, max) == Some(digits_value(t)),
        decimal(digits_value(t)) == t,
{
    assert(is_digit(t[0]));
    lemma_decimal_of_digits(t);
}

/// A canonical FEN string is valid: `from_fen` reads it (it has no ninth
/// rank) without error.
pub proof fn lemma_fen_canonical_valid(s: Seq<char>)
    requires
        fen_canonical(s),
    ensures
        !fen_overflows(s),
        fen_error(s) is None,
{
    let f = words(s);
    lemma_placement_valid(f[0]);
    lemma_castling_canonical(f[2]);
    lemma_ep_canonical(f[3]);
    lemma_clock_canonical(f[4], 255);
    lemma_clock_canonical(f[5], 65535);
}

proof fn lemma_cell_letter(cell: Cell)
    ensures
        mailbox_fen_char(cell_code(cell)) == cell_char(cell),
        cell_code(cell) <= 12,
{
    if let Some((p, c)) = cell {
        lemma_mailbox_code_roundtrip(p, c);
    }
}

proof fn lemma_join_push(ws: Seq<Seq<char>>, x: Seq<char>, sep: char)
    requires
        ws.len() >= 1,
    ensures
        join_on(ws.push(x), sep) == join_on(ws, sep) + seq![sep] + x,
{
    assert(ws.push(x).drop_last() =~= ws);
}

/// A canonical FEN string reads as a board whose FEN text is that string:
/// reading, then writing, gives the string back.
pub proof fn lemma_fen_canonical_text(s: Seq<char>, b: Board)
    requires
        fen_canonical(s),
        fen_board(s, b),
    ensures
        fen_text(b) == s,
{
    lemma_fen_canonical_valid(s);
    lemma_fen_board_representable(s, b);
    let f = words(s);
    let p = f[0];
    let rs = split_on(p, '/');
    let cells = canonical_cells(p);
    lemma_placement_valid(p);
    // each rank of the board is written as the rank of the string
    assert forall|i: int| 0 <= i < 8 implies #[trigger] rank_text(b, 7 - i) == rs[i] by {
        let r = 7 - i;
        assert forall|g: int| 0 <= g < 8 implies #[trigger] mailbox_fen_char(b.mailbox[r * 8 + g])
            == cell_char(cells[i][g]) by {
            lemma_square_coords(r, g);
            assert(board_holds(b, r * 8 + g, filled_cell(cells, seq![], r * 8 + g)));
            lemma_cell_letter(cells[i][g]);
        }
        lemma_rank_text_cells(b, r, cells[i], 0, 0);
        assert(rank_canonical(rs[i]));
        lemma_rank_canonical_text(rs[i]);
    }
    assert(mailbox_valid(b)) by {
        assert forall|s: int| 0 <= s < 64 implies #[trigger] b.mailbox[s] <= 12 by {
            assert(board_holds(b, s, mailbox_content(b.mailbox[s])));
        }
    }
    lemma_placement_split(b, 7);
    assert(split_on(placement_text(b, 7), '/') =~= rs);
    lemma_join_split(placement_text(b, 7), '/');
    lemma_join_split(p, '/');
    assert(placement_text(b, 7) == p);
    // the other fields
    lemma_castling_canonical(f[2]);
    lemma_ep_canonical(f[3]);
    lemma_clock_canonical(f[4], 255);
    lemma_clock_canonical(f[5], 65535);
    assert(seq![if b.white_to_move { 'w' } else { 'b' }] == f[1]) by {
        if f[1] == seq!['w'] {
            assert(side_value(f[1]) == Some(true));
        } else {
            assert(f[1] != seq!['w']) by {
                assert(f[1][0] == 'b');
            }
            assert(side_value(f[1]) == Some(false));
        }
    }
    lemma_fen_text_words(b);
    let w = words(fen_text(b));
    assert(w =~= f);
    let w1 = seq![f[0]];
    let w2 = w1.push(f[1]);
    let w3 = w2.push(f[2]);
    let w4 = w3.push(f[3]);
    let w5 = w4.push(f[4]);
    lemma_join_push(w1, f[1], ' ');
    lemma_join_push(w2, f[2], ' ');
    lemma_join_push(w3, f[3], ' ');
    lemma_join_push(w4, f[4], ' ');
    lemma_join_push(w5, f[5], ' ');
    assert(w5.push(f[5]) =~= f);
    assert(fen_text(b) =~= join_on(f, ' '));
}

} // verus!
