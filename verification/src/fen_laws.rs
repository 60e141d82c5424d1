//! Laws of FEN reading and writing: what `to_string` writes, `from_fen`
//! reads back as the same board.
use vstd::prelude::*;

use crate::bits::{has_bit, lemma_bits_ext};
use crate::board::Board;
use crate::fen::{
    board_has_cells, side_value, fen_board, fen_error, fen_overflows, fen_text, filled_cell, parse_placement, placement_ranks,
    castle_flag, castling_flags, castling_text, file_letter, parse_ranks, placement_text, board_holds, castling_value, empties, empty_run, ep_text, ep_value, fen_char, fen_piece,
    mailbox_fen_char, parse_rank_spec, rank_cells, rank_text, rank_text_from, Cell, FenError,
};
use crate::text::{
    parse_unsigned, is_ws, lemma_parse_decimal, lemma_words_push_word, lemma_words_push_ws, no_ws, words,
    decimal, digit_char, digit_value, is_digit, lemma_decimal_digits, lemma_split_concat,
    lemma_split_no_sep, split_on,
};
use crate::types::{file_of, mailbox_content, rank_of, Color, Piece, Square, NO_SQUARE_INDEX};

verus! {

/// The cells of `rank` of `b`, files a to h, as its mailbox reads them.
pub open spec fn rank_cells_of(b: Board, rank: int) -> Seq<Cell> {
    Seq::new(8, |f: int| mailbox_content(b.mailbox[rank * 8 + f]))
}

/// `b` can be written as FEN and read back: every square's bitboards agree
/// with its mailbox code (which names a piece or the empty square), the
/// castling rights are among the four known ones, the en-passant square is
/// none or lies on rank 3 or 6, and the hash is 0.
pub open spec fn fen_representable(b: Board) -> bool {
    &&& forall|s: int| 0 <= s < 64 ==> #[trigger] board_holds(b, s, mailbox_content(b.mailbox[s]))
    &&& b.castling < 16
    &&& (b.ep_square.0 == NO_SQUARE_INDEX || (b.ep_square.0 < 64 && (rank_of(b.ep_square.0 as int)
        == 2 || rank_of(b.ep_square.0 as int) == 5)))
    &&& b.hash == 0
}

proof fn lemma_rank_cells_prefix(w1: Seq<char>, w2: Seq<char>, n: int)
    requires
        0 <= n <= w1.len(),
        n <= w2.len(),
        forall|i: int| 0 <= i < n ==> w1[i] == w2[i],
    ensures
        rank_cells(w1, n) == rank_cells(w2, n),
    decreases n,
{
    if n > 0 {
        lemma_rank_cells_prefix(w1, w2, n - 1);
        assert(w1[n - 1] == w2[n - 1]);
    }
}

proof fn lemma_rank_step_digit(u: Seq<char>, cells: Seq<Cell>, e: nat)
    requires
        rank_cells(u, u.len() as int) == Ok::<Seq<Cell>, FenError>(cells),
        1 <= e <= 8,
        cells.len() + e <= 8,
    ensures
        rank_cells(u + decimal(e), (u + decimal(e)).len() as int) == Ok::<Seq<Cell>, FenError>(
            cells + empties(e),
        ),
{
    lemma_decimal_digits(e);
    let w = u + decimal(e);
    assert(w.len() == u.len() + 1);
    lemma_rank_cells_prefix(w, u, u.len() as int);
    assert(w[u.len() as int] == digit_char(e));
    assert(is_digit(digit_char(e)));
    assert(digit_value(digit_char(e)) == e);
}

proof fn lemma_rank_step_piece(u: Seq<char>, cells: Seq<Cell>, ch: char, pc: (crate::types::Piece, crate::types::Color))
    requires
        rank_cells(u, u.len() as int) == Ok::<Seq<Cell>, FenError>(cells),
        fen_piece(ch) == Some(pc),
        cells.len() < 8,
    ensures
        rank_cells(u.push(ch), u.len() + 1int) == Ok::<Seq<Cell>, FenError>(cells.push(Some(pc))),
{
    let w = u.push(ch);
    lemma_rank_cells_prefix(w, u, u.len() as int);
    assert(w[u.len() as int] == ch);
    assert(!is_digit(ch));
}

/// The FEN letter of a piece names that piece.
pub proof fn lemma_fen_char_roundtrip(piece: crate::types::Piece, color: crate::types::Color)
    ensures
        fen_piece(fen_char(piece, color)) == Some((piece, color)),
        !is_digit(fen_char(piece, color)),
{
}

/// The text of files `f` to h, after a run of `e` empty squares, reads back
/// as the rest of the rank.
proof fn lemma_rank_decode(b: Board, r: int, f: int, e: int, u: Seq<char>)
    requires
        0 <= r < 8,
        0 <= e <= f <= 8,
        forall|g: int| 0 <= g < 8 ==> #[trigger] b.mailbox[r * 8 + g] <= 12,
        rank_cells(u, u.len() as int) == Ok::<Seq<Cell>, FenError>(rank_cells_of(b, r).take(f - e)),
        forall|g: int| f - e <= g < f ==> #[trigger] rank_cells_of(b, r)[g] is None,
    ensures
        rank_cells(u + rank_text_from(b, r, f, e as nat), (u + rank_text_from(b, r, f, e as nat)).len() as int)
            == Ok::<Seq<Cell>, FenError>(rank_cells_of(b, r)),
    decreases 8 - f,
{
    let cs = rank_cells_of(b, r);
    let u1 = u + empty_run(e as nat);
    // After the run of empty squares, the cells read so far are the first `f`.
    if e > 0 {
        lemma_rank_step_digit(u, cs.take(f - e), e as nat);
        assert(cs.take(f - e) + empties(e as nat) =~= cs.take(f));
    } else {
        assert(u1 == u);
    }
    assert(rank_cells(u1, u1.len() as int) == Ok::<Seq<Cell>, FenError>(cs.take(f)));
    if f >= 8 {
        assert(cs.take(8) == cs);
        assert(u + rank_text_from(b, r, f, e as nat) == u1);
    } else {
        let m = b.mailbox[r * 8 + f];
        assert(cs[f] == mailbox_content(m));
        match mailbox_fen_char(m) {
            Some(ch) => {
                let pc = mailbox_content(m)->Some_0;
                lemma_fen_char_roundtrip(pc.0, pc.1);
                lemma_rank_step_piece(u1, cs.take(f), ch, pc);
                let u2 = u1.push(ch);
                assert(cs.take(f).push(Some(pc)) =~= cs.take(f + 1));
                lemma_rank_decode(b, r, f + 1, 0, u2);
                assert(u + rank_text_from(b, r, f, e as nat) =~= u2 + rank_text_from(b, r, f + 1, 0));
            },
            None => {
                assert(cs[f] is None);
                lemma_rank_decode(b, r, f + 1, e + 1, u);
            },
        }
    }
}

/// The text of a rank reads back as its cells.
pub proof fn lemma_rank_roundtrip(b: Board, r: int)
    requires
        0 <= r < 8,
        forall|g: int| 0 <= g < 8 ==> #[trigger] b.mailbox[r * 8 + g] <= 12,
    ensures
        parse_rank_spec(rank_text(b, r)) == Ok::<Seq<Cell>, FenError>(rank_cells_of(b, r)),
{
    let u = Seq::<char>::empty();
    assert(rank_cells_of(b, r).take(0) =~= Seq::<Cell>::empty());
    lemma_rank_decode(b, r, 0, 0, u);
    assert(u + rank_text(b, r) == rank_text(b, r));
}

/// A character of a rank's text: a digit or a piece letter.
pub open spec fn rank_char(c: char) -> bool {
    is_digit(c) || fen_piece(c) is Some
}

/// Every character of a rank's text is a digit or a piece letter, and the
/// text is not empty when a square or a run of empty squares is left.
proof fn lemma_rank_text_chars(b: Board, r: int, f: int, e: nat)
    requires
        0 <= f <= 8,
        e <= f,
        forall|g: int| 0 <= g < 8 ==> #[trigger] b.mailbox[r * 8 + g] <= 12,
    ensures
        forall|i: int| 0 <= i < rank_text_from(b, r, f, e).len() ==> rank_char(
            #[trigger] rank_text_from(b, r, f, e)[i],
        ),
        (f < 8 || e > 0) ==> rank_text_from(b, r, f, e).len() > 0,
    decreases 8 - f,
{
    lemma_decimal_digits(e);
    let run = empty_run(e);
    assert forall|i: int| 0 <= i < run.len() implies rank_char(#[trigger] run[i]) by {}
    if f < 8 {
        let m = b.mailbox[r * 8 + f];
        match mailbox_fen_char(m) {
            Some(ch) => {
                let pc = mailbox_content(m)->Some_0;
                lemma_fen_char_roundtrip(pc.0, pc.1);
                lemma_rank_text_chars(b, r, f + 1, 0);
                let rest = rank_text_from(b, r, f + 1, 0);
                let t = run + seq![ch] + rest;
                assert forall|i: int| 0 <= i < t.len() implies rank_char(#[trigger] t[i]) by {
                    if i < run.len() {
                        assert(t[i] == run[i]);
                    } else if i == run.len() {
                        assert(t[i] == ch);
                    } else {
                        assert(t[i] == rest[i - run.len() - 1]);
                    }
                }
            },
            None => {
                lemma_rank_text_chars(b, r, f + 1, e + 1);
            },
        }
    }
}

/// Every mailbox value of `b` is a piece code or the empty value.
pub open spec fn mailbox_valid(b: Board) -> bool {
    forall|s: int| 0 <= s < 64 ==> #[trigger] b.mailbox[s] <= 12
}

/// The placement text of ranks `r` down to 1 splits at `/` into the texts
/// of those ranks; its characters are rank characters and `/`.
pub(crate) proof fn lemma_placement_split(b: Board, r: int)
    requires
        0 <= r < 8,
        mailbox_valid(b),
    ensures
        split_on(placement_text(b, r), '/') == Seq::new((r + 1) as nat, |i: int| rank_text(b, r - i)),
        placement_text(b, r).len() > 0,
        forall|i: int| 0 <= i < placement_text(b, r).len() ==> {
            let c = #[trigger] placement_text(b, r)[i];
            rank_char(c) || c == '/'
        },
    decreases r,
{
    assert forall|g: int| 0 <= g < 8 implies #[trigger] b.mailbox[r * 8 + g] <= 12 by {
        assert(b.mailbox[r * 8 + g] <= 12);
    }
    lemma_rank_text_chars(b, r, 0, 0);
    let t = rank_text(b, r);
    assert forall|i: int| 0 <= i < t.len() implies #[trigger] t[i] != '/' by {
        assert(rank_char(t[i]));
    }
    lemma_split_no_sep(t, '/');
    if r == 0 {
        assert(seq![t] =~= Seq::new(1, |i: int| rank_text(b, 0 - i)));
    } else {
        lemma_placement_split(b, r - 1);
        let rest = placement_text(b, r - 1);
        lemma_split_concat(t, rest, '/');
        assert(seq![t] + Seq::new(r as nat, |i: int| rank_text(b, r - 1 - i)) =~= Seq::new(
            (r + 1) as nat,
            |i: int| rank_text(b, r - i),
        ));
        let p = t + seq!['/'] + rest;
        assert forall|i: int| 0 <= i < p.len() implies {
            let c = #[trigger] p[i];
            rank_char(c) || c == '/'
        } by {
            if i < t.len() {
                assert(p[i] == t[i]);
            } else if i > t.len() {
                assert(p[i] == rest[i - t.len() - 1]);
            }
        }
    }
}

/// The ranks of a board's placement text read back as its cells, rank 8
/// first.
proof fn lemma_parse_ranks_roundtrip(b: Board, n: int)
    requires
        0 <= n <= 8,
        mailbox_valid(b),
    ensures
        parse_ranks(Seq::new(8, |i: int| rank_text(b, 7 - i)), n) == Ok::<Seq<Seq<Cell>>, FenError>(
            Seq::new(n as nat, |i: int| rank_cells_of(b, 7 - i)),
        ),
    decreases n,
{
    let rs = Seq::new(8, |i: int| rank_text(b, 7 - i));
    if n == 0 {
        assert(Seq::new(0, |i: int| rank_cells_of(b, 7 - i)) =~= Seq::<Seq<Cell>>::empty());
    } else {
        lemma_parse_ranks_roundtrip(b, n - 1);
        let r = 8 - n;
        assert(rs[n - 1] == rank_text(b, r));
        assert forall|g: int| 0 <= g < 8 implies #[trigger] b.mailbox[r * 8 + g] <= 12 by {
            assert(b.mailbox[r * 8 + g] <= 12);
        }
        lemma_rank_roundtrip(b, r);
        assert(Seq::new((n - 1) as nat, |i: int| rank_cells_of(b, 7 - i)).push(rank_cells_of(b, r))
            =~= Seq::new(n as nat, |i: int| rank_cells_of(b, 7 - i)));
    }
}

/// The castling rights as `castling_flags` gathers them from the letters
/// K, Q, k, q in order.
pub open spec fn castle_fold1(c: u8) -> u8 {
    if c & 1u8 != 0 {
        0u8 | 1u8
    } else {
        0u8
    }
}

pub open spec fn castle_fold2(c: u8) -> u8 {
    if c & 2u8 != 0 {
        castle_fold1(c) | 2u8
    } else {
        castle_fold1(c)
    }
}

pub open spec fn castle_fold3(c: u8) -> u8 {
    if c & 4u8 != 0 {
        castle_fold2(c) | 4u8
    } else {
        castle_fold2(c)
    }
}

pub open spec fn castle_fold4(c: u8) -> u8 {
    if c & 8u8 != 0 {
        castle_fold3(c) | 8u8
    } else {
        castle_fold3(c)
    }
}

proof fn lemma_castle_bits(c: u8)
    by (bit_vector)
    requires
        c < 16,
    ensures
        castle_fold4(c) == c,
        c != 0 ==> (c & 1u8 != 0 || c & 2u8 != 0 || c & 4u8 != 0 || c & 8u8 != 0),
{
}

proof fn lemma_castling_flags_prefix(w1: Seq<char>, w2: Seq<char>, n: int)
    requires
        0 <= n <= w1.len(),
        n <= w2.len(),
        forall|i: int| 0 <= i < n ==> w1[i] == w2[i],
    ensures
        castling_flags(w1, n) == castling_flags(w2, n),
    decreases n,
{
    if n > 0 {
        lemma_castling_flags_prefix(w1, w2, n - 1);
        assert(w1[n - 1] == w2[n - 1]);
    }
}

proof fn lemma_castling_step(t: Seq<char>, v: u8, present: bool, ch: char, f: u8)
    requires
        castling_flags(t, t.len() as int) == Some(v),
        castle_flag(ch) == Some(f),
    ensures
        castling_flags(
            t + (if present { seq![ch] } else { seq![] }),
            (t + (if present { seq![ch] } else { seq![] })).len() as int,
        ) == Some(if present { v | f } else { v }),
{
    let w = t + (if present { seq![ch] } else { seq![] });
    if present {
        lemma_castling_flags_prefix(w, t, t.len() as int);
        assert(w[t.len() as int] == ch);
    } else {
        assert(w == t);
    }
}

/// The castling text reads back as the same rights.
pub proof fn lemma_castling_roundtrip(c: u8)
    requires
        c < 16,
    ensures
        castling_value(castling_text(c)) == Some(c),
        castling_text(c).len() > 0,
        forall|i: int| 0 <= i < castling_text(c).len() ==> {
            let x = #[trigger] castling_text(c)[i];
            x == '-' || x == 'K' || x == 'Q' || x == 'k' || x == 'q'
        },
{
    lemma_castle_bits(c);
    if c != 0 {
        let t0 = Seq::<char>::empty();
        let t1 = t0 + (if c & 1u8 != 0 { seq!['K'] } else { seq![] });
        let t2 = t1 + (if c & 2u8 != 0 { seq!['Q'] } else { seq![] });
        let t3 = t2 + (if c & 4u8 != 0 { seq!['k'] } else { seq![] });
        let t4 = t3 + (if c & 8u8 != 0 { seq!['q'] } else { seq![] });
        assert(castling_flags(t0, 0) == Some(0u8));
        lemma_castling_step(t0, 0u8, c & 1u8 != 0, 'K', 1u8);
        lemma_castling_step(t1, castle_fold1(c), c & 2u8 != 0, 'Q', 2u8);
        lemma_castling_step(t2, castle_fold2(c), c & 4u8 != 0, 'k', 4u8);
        lemma_castling_step(t3, castle_fold3(c), c & 8u8 != 0, 'q', 8u8);
        assert(castling_text(c) =~= t4);
        assert(t4.len() > 0);
        assert(t4 != seq!['-']) by {
            if t4 == seq!['-'] {
                assert(t4[0] == '-');
            }
        }
        assert forall|i: int| 0 <= i < t4.len() implies {
            let x = #[trigger] t4[i];
            x == '-' || x == 'K' || x == 'Q' || x == 'k' || x == 'q'
        } by {}
    }
}

/// The en-passant text reads back as the same square.
pub proof fn lemma_ep_roundtrip(sq: Square)
    requires
        sq.0 == NO_SQUARE_INDEX || (sq.0 < 64 && (rank_of(sq.0 as int) == 2 || rank_of(sq.0 as int) == 5)),
    ensures
        ep_value(ep_text(sq)) == Some(sq),
        ep_text(sq).len() > 0,
        forall|i: int| 0 <= i < ep_text(sq).len() ==> {
            let x = #[trigger] ep_text(sq)[i];
            x == '-' || x == '3' || x == '6' || (97 <= x as u32 <= 104)
        },
{
    if sq.0 < 64 {
        let f = file_of(sq.0 as int);
        let t = ep_text(sq);
        assert(t[0] == (97 + f) as char);
        assert(file_letter(t[0]) == Some(f as u8));
        assert(t != seq!['-']) by {
            if t == seq!['-'] {
                assert(t.len() == 1);
            }
        }
    }
}

proof fn lemma_fen_text_chars(b: Board)
    requires
        fen_representable(b),
    ensures
        placement_text(b, 7).len() > 0,
        no_ws(placement_text(b, 7)),
        no_ws(castling_text(b.castling)),
        castling_text(b.castling).len() > 0,
        no_ws(ep_text(b.ep_square)),
        ep_text(b.ep_square).len() > 0,
        split_on(placement_text(b, 7), '/') == Seq::new(8, |i: int| rank_text(b, 7 - i)),
        castling_value(castling_text(b.castling)) == Some(b.castling),
        ep_value(ep_text(b.ep_square)) == Some(b.ep_square),
        mailbox_valid(b),
{
    assert forall|s: int| 0 <= s < 64 implies #[trigger] b.mailbox[s] <= 12 by {
        assert(board_holds(b, s, mailbox_content(b.mailbox[s])));
    }
    lemma_placement_split(b, 7);
    let p = placement_text(b, 7);
    assert forall|i: int| 0 <= i < p.len() implies !is_ws(#[trigger] p[i]) by {
        assert(rank_char(p[i]) || p[i] == '/');
    }
    lemma_castling_roundtrip(b.castling);
    let c = castling_text(b.castling);
    assert forall|i: int| 0 <= i < c.len() implies !is_ws(#[trigger] c[i]) by {}
    lemma_ep_roundtrip(b.ep_square);
    let e = ep_text(b.ep_square);
    assert forall|i: int| 0 <= i < e.len() implies !is_ws(#[trigger] e[i]) by {}
}

/// The fields of a board's FEN text.
pub(crate) proof fn lemma_fen_text_words(b: Board)
    requires
        fen_representable(b),
    ensures
        words(fen_text(b)) == seq![
            placement_text(b, 7),
            seq![if b.white_to_move { 'w' } else { 'b' }],
            castling_text(b.castling),
            ep_text(b.ep_square),
            decimal(b.halfmove_clock as nat),
            decimal(b.fullmove_number as nat),
        ],
{
    lemma_fen_text_chars(b);
    lemma_decimal_digits(b.halfmove_clock as nat);
    lemma_decimal_digits(b.fullmove_number as nat);
    let sp = seq![' '];
    let p = placement_text(b, 7);
    let st = seq![if b.white_to_move { 'w' } else { 'b' }];
    let c = castling_text(b.castling);
    let e = ep_text(b.ep_square);
    let h = decimal(b.halfmove_clock as nat);
    let f = decimal(b.fullmove_number as nat);
    assert(no_ws(st));
    let t0 = Seq::<char>::empty();
    lemma_words_push_word(t0, p);
    assert(t0 + p == p);
    let t1 = p + sp;
    assert(t1 == p.push(' '));
    lemma_words_push_ws(p, ' ');
    lemma_words_push_word(t1, st);
    let t2 = t1 + st;
    assert(t2 + sp == t2.push(' '));
    lemma_words_push_ws(t2, ' ');
    let t3 = t2 + sp;
    lemma_words_push_word(t3, c);
    let t4 = t3 + c;
    assert(t4 + sp == t4.push(' '));
    lemma_words_push_ws(t4, ' ');
    let t5 = t4 + sp;
    lemma_words_push_word(t5, e);
    let t6 = t5 + e;
    assert(t6 + sp == t6.push(' '));
    lemma_words_push_ws(t6, ' ');
    let t7 = t6 + sp;
    lemma_words_push_word(t7, h);
    let t8 = t7 + h;
    assert(t8 + sp == t8.push(' '));
    lemma_words_push_ws(t8, ' ');
    let t9 = t8 + sp;
    lemma_words_push_word(t9, f);
    assert(fen_text(b) == t9 + f);
    assert(words(t9 + f) =~= seq![p, st, c, e, h, f]);
}

/// A board that FEN can represent is written as a valid FEN string, which
/// reads back as that very board.
pub proof fn lemma_fen_roundtrip(b: Board)
    requires
        fen_representable(b),
    ensures
        !fen_overflows(fen_text(b)),
        fen_error(fen_text(b)) is None,
        fen_board(fen_text(b), b),
{
    lemma_fen_text_words(b);
    lemma_fen_text_chars(b);
    let fields = words(fen_text(b));
    let p = placement_text(b, 7);
    assert(fields[0] == p);
    let rs = Seq::new(8, |i: int| rank_text(b, 7 - i));
    assert(placement_ranks(p) == rs);
    lemma_parse_ranks_roundtrip(b, 8);
    let cells = Seq::new(8, |i: int| rank_cells_of(b, 7 - i));
    assert(parse_placement(p) == Ok::<Seq<Seq<Cell>>, FenError>(cells));
    lemma_parse_decimal(b.halfmove_clock as nat, 255);
    lemma_parse_decimal(b.fullmove_number as nat, 65535);
    assert forall|s: int| 0 <= s < 64 implies #[trigger] board_holds(b, s, filled_cell(cells, seq![], s)) by {
        assert(board_holds(b, s, mailbox_content(b.mailbox[s])));
        let r = rank_of(s);
        let f = file_of(s);
        assert(cells[7 - r] == rank_cells_of(b, r));
        assert(r * 8 + f == s);
        assert(filled_cell(cells, seq![], s) == mailbox_content(b.mailbox[s]));
    }
    assert(board_has_cells(b, parse_placement(fields[0])->Ok_0));
    if b.white_to_move {
        assert(fields[1] =~= seq!['w']);
    } else {
        assert(fields[1] =~= seq!['b']);
        assert(fields[1] != seq!['w']) by {
            if fields[1] == seq!['w'] {
                assert(fields[1][0] == 'w');
            }
        }
    }
    assert(b.white_to_move == side_value(fields[1])->Some_0);
    assert(b.castling == castling_value(fields[2])->Some_0);
    assert(b.ep_square == ep_value(fields[3])->Some_0);
    assert(b.halfmove_clock == parse_unsigned(fields[4], 255)->Some_0);
    assert(b.fullmove_number == parse_unsigned(fields[5], 65535)->Some_0);
}

/// A valid FEN string describes one board only.
pub proof fn lemma_fen_board_unique(fen: Seq<char>, b1: Board, b2: Board)
    requires
        fen_board(fen, b1),
        fen_board(fen, b2),
    ensures
        b1 == b2,
{
    let cells = parse_placement(words(fen)[0])->Ok_0;
    assert forall|s: int| 0 <= s < 64 implies b1.mailbox[s] == b2.mailbox[s] by {
        assert(board_holds(b1, s, filled_cell(cells, seq![], s)));
        assert(board_holds(b2, s, filled_cell(cells, seq![], s)));
    }
    assert(b1.mailbox =~= b2.mailbox);
    assert forall|i: u64| i < 64 implies {
        &&& #[trigger] has_bit(b1.white, i) == has_bit(b2.white, i)
        &&& has_bit(b1.black, i) == has_bit(b2.black, i)
        &&& has_bit(b1.pawns, i) == has_bit(b2.pawns, i)
        &&& has_bit(b1.knights, i) == has_bit(b2.knights, i)
        &&& has_bit(b1.bishops, i) == has_bit(b2.bishops, i)
        &&& has_bit(b1.rooks, i) == has_bit(b2.rooks, i)
        &&& has_bit(b1.queens, i) == has_bit(b2.queens, i)
        &&& has_bit(b1.kings, i) == has_bit(b2.kings, i)
    } by {
        assert(board_holds(b1, i as int, filled_cell(cells, seq![], i as int)));
        assert(board_holds(b2, i as int, filled_cell(cells, seq![], i as int)));
    }
    lemma_bits_ext(b1.white, b2.white);
    assert forall|i: u64| i < 64 implies #[trigger] has_bit(b1.black, i) == has_bit(b2.black, i) by {
        assert(has_bit(b1.white, i) == has_bit(b2.white, i));
    }
    lemma_bits_ext(b1.black, b2.black);
    assert forall|i: u64| i < 64 implies #[trigger] has_bit(b1.pawns, i) == has_bit(b2.pawns, i) by {
        assert(has_bit(b1.white, i) == has_bit(b2.white, i));
    }
    lemma_bits_ext(b1.pawns, b2.pawns);
    assert forall|i: u64| i < 64 implies #[trigger] has_bit(b1.knights, i) == has_bit(b2.knights, i) by {
        assert(has_bit(b1.white, i) == has_bit(b2.white, i));
    }
    lemma_bits_ext(b1.knights, b2.knights);
    assert forall|i: u64| i < 64 implies #[trigger] has_bit(b1.bishops, i) == has_bit(b2.bishops, i) by {
        assert(has_bit(b1.white, i) == has_bit(b2.white, i));
    }
    lemma_bits_ext(b1.bishops, b2.bishops);
    assert forall|i: u64| i < 64 implies #[trigger] has_bit(b1.rooks, i) == has_bit(b2.rooks, i) by {
        assert(has_bit(b1.white, i) == has_bit(b2.white, i));
    }
    lemma_bits_ext(b1.rooks, b2.rooks);
    assert forall|i: u64| i < 64 implies #[trigger] has_bit(b1.queens, i) == has_bit(b2.queens, i) by {
        assert(has_bit(b1.white, i) == has_bit(b2.white, i));
    }
    lemma_bits_ext(b1.queens, b2.queens);
    assert forall|i: u64| i < 64 implies #[trigger] has_bit(b1.kings, i) == has_bit(b2.kings, i) by {
        assert(has_bit(b1.white, i) == has_bit(b2.white, i));
    }
    lemma_bits_ext(b1.kings, b2.kings);
}

/// What `to_string` writes of a board that FEN can represent, `from_fen`
/// reads back as the same board: no other board matches the text.
pub proof fn lemma_fen_write_read(b: Board, read: Board)
    requires
        fen_representable(b),
        fen_board(fen_text(b), read),
    ensures
        read == b,
{
    lemma_fen_roundtrip(b);
    lemma_fen_board_unique(fen_text(b), read, b);
}

proof fn lemma_or_small(v: u8, f: u8)
    by (bit_vector)
    requires
        v < 16,
        f < 16,
    ensures
        v | f < 16,
{
}

proof fn lemma_castling_flags_small(s: Seq<char>, n: int)
    ensures
        castling_flags(s, n) matches Some(v) ==> v < 16,
    decreases n,
{
    if n > 0 {
        lemma_castling_flags_small(s, n - 1);
        if let Some(v) = castling_flags(s, n - 1) {
            if let Some(f) = castle_flag(s[n - 1]) {
                lemma_or_small(v, f);
            }
        }
    }
}

/// A board read from FEN can be written back as FEN: reading, writing and
/// reading again gives the same board.
pub proof fn lemma_fen_board_representable(fen: Seq<char>, b: Board)
    requires
        fen_error(fen) is None,
        fen_board(fen, b),
    ensures
        fen_representable(b),
        !fen_overflows(fen_text(b)),
        fen_error(fen_text(b)) is None,
        fen_board(fen_text(b), b),
{
    lemma_fen_cells_representable(fen, b);
    lemma_fen_roundtrip(b);
}

/// A FEN string that is the text of some board reads as a board whose text
/// is that very string: reading, then writing, gives the string back.
pub proof fn lemma_fen_text_reread(b: Board, read: Board)
    requires
        fen_representable(b),
        fen_board(fen_text(b), read),
    ensures
        fen_text(read) == fen_text(b),
{
    lemma_fen_write_read(b, read);
}

proof fn lemma_fen_cells_representable(fen: Seq<char>, b: Board)
    requires
        fen_error(fen) is None,
        fen_board(fen, b),
    ensures
        fen_representable(b),
{
    let f = words(fen);
    let cells = parse_placement(f[0])->Ok_0;
    assert forall|s: int| 0 <= s < 64 implies #[trigger] board_holds(b, s, mailbox_content(b.mailbox[s])) by {
        assert(board_holds(b, s, filled_cell(cells, seq![], s)));
        if let Some((p, c)) = filled_cell(cells, seq![], s) {
            crate::types::lemma_mailbox_code_roundtrip(p, c);
        }
    }
    lemma_castling_flags_small(f[2], f[2].len() as int);
}

/// Strings with the same fields read alike: the white space before, between
/// and after the fields does not change what is read, nor whether it fails.
pub proof fn lemma_fen_whitespace(s1: Seq<char>, s2: Seq<char>, b: Board)
    requires
        words(s1) == words(s2),
    ensures
        fen_overflows(s1) == fen_overflows(s2),
        fen_error(s1) == fen_error(s2),
        fen_board(s1, b) == fen_board(s2, b),
{
}

/// The algebraic name of a square on rank 3 or 6 reads as that square in
/// the en-passant field.
pub proof fn lemma_algebraic_ep(sq: Square)
    requires
        sq.0 < 64,
        rank_of(sq.0 as int) == 2 || rank_of(sq.0 as int) == 5,
    ensures
        ep_value(seq![((97u8) + file_of(sq.0 as int)) as char, ((49u8) + rank_of(sq.0 as int)) as char])
            == Some(sq),
{
    lemma_ep_roundtrip(sq);
    let t = seq![((97u8) + file_of(sq.0 as int)) as char, ((49u8) + rank_of(sq.0 as int)) as char];
    assert(t =~= ep_text(sq));
}

/// The FEN letters: p, n, b, r, q, k name the black pawn, knight, bishop,
/// rook, queen and king, and P, N, B, R, Q, K the white ones; no other
/// character names a piece, and each piece is written by its letter.
pub proof fn lemma_fen_letters()
    ensures
        fen_piece('p') == Some((Piece::Pawn, Color::Black)),
        fen_piece('n') == Some((Piece::Knight, Color::Black)),
        fen_piece('b') == Some((Piece::Bishop, Color::Black)),
        fen_piece('r') == Some((Piece::Rook, Color::Black)),
        fen_piece('q') == Some((Piece::Queen, Color::Black)),
        fen_piece('k') == Some((Piece::King, Color::Black)),
        fen_piece('P') == Some((Piece::Pawn, Color::White)),
        fen_piece('N') == Some((Piece::Knight, Color::White)),
        fen_piece('B') == Some((Piece::Bishop, Color::White)),
        fen_piece('R') == Some((Piece::Rook, Color::White)),
        fen_piece('Q') == Some((Piece::Queen, Color::White)),
        fen_piece('K') == Some((Piece::King, Color::White)),
        forall|c: char|
            (#[trigger] fen_piece(c)) is Some ==> (c == 'p' || c == 'n' || c == 'b' || c == 'r' || c == 'q'
                || c == 'k' || c == 'P' || c == 'N' || c == 'B' || c == 'R' || c == 'Q' || c == 'K'),
        forall|c: char|
            (#[trigger] fen_piece(c)) is Some ==> (fen_piece(c)->Some_0.1 == Color::Black <==> 97 <= c as u32
                <= 122),
        fen_char(Piece::Pawn, Color::Black) == 'p',
        fen_char(Piece::Knight, Color::Black) == 'n',
        fen_char(Piece::Bishop, Color::Black) == 'b',
        fen_char(Piece::Rook, Color::Black) == 'r',
        fen_char(Piece::Queen, Color::Black) == 'q',
        fen_char(Piece::King, Color::Black) == 'k',
        fen_char(Piece::Pawn, Color::White) == 'P',
        fen_char(Piece::Knight, Color::White) == 'N',
        fen_char(Piece::Bishop, Color::White) == 'B',
        fen_char(Piece::Rook, Color::White) == 'R',
        fen_char(Piece::Queen, Color::White) == 'Q',
        fen_char(Piece::King, Color::White) == 'K',
{
}

} // verus!