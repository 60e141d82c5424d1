//! The board: one bitboard per piece kind and per color, a mailbox array
//! with one code per square, and the game state that FEN records.
use vstd::prelude::*;

use crate::bits::{has_bit, lemma_bit_ops, lemma_meets_single};
use crate::types::{
    color_and_piece_to_mailbox, lemma_mailbox_code_roundtrip, mailbox_code, mailbox_content, mailbox_to_color_and_piece, Color,
    Piece, Square, EMPTY_MAILBOX, NO_SQUARE_INDEX,
};

verus! {

/// Errors of board operations.
#[derive(Debug, PartialEq, Eq, Structural)]
pub enum BoardErr {
    InvalidMove,
    InvalidSquare,
    InconsistentState,
}

/// A chess position.
#[derive(Debug, Clone)]
pub struct Board {
    pub pawns: u64,
    pub knights: u64,
    pub bishops: u64,
    pub rooks: u64,
    pub queens: u64,
    pub kings: u64,
    pub white: u64,
    pub black: u64,
    pub white_to_move: bool,
    pub castling: u8,
    pub halfmove_clock: u8,
    pub fullmove_number: u16,
    pub ep_square: Square,
    pub hash: u64,
    pub mailbox: [u8; 64],
}

/// The bitboard of a piece kind.
pub open spec fn piece_bb(b: Board, piece: Piece) -> u64 {
    match piece {
        Piece::Pawn => b.pawns,
        Piece::Knight => b.knights,
        Piece::Bishop => b.bishops,
        Piece::Rook => b.rooks,
        Piece::Queen => b.queens,
        Piece::King => b.kings,
    }
}

/// The bitboard of a color.
pub open spec fn color_bb(b: Board, color: Color) -> u64 {
    match color {
        Color::White => b.white,
        Color::Black => b.black,
    }
}

/// No bitboard holds square `t`.
pub open spec fn no_bits_at(b: Board, t: u64) -> bool {
    &&& !has_bit(b.white, t)
    &&& !has_bit(b.black, t)
    &&& !has_bit(b.pawns, t)
    &&& !has_bit(b.knights, t)
    &&& !has_bit(b.bishops, t)
    &&& !has_bit(b.rooks, t)
    &&& !has_bit(b.queens, t)
    &&& !has_bit(b.kings, t)
}

/// The mailbox and the bitboards agree on square `s`: an empty square is in
/// no bitboard, and an occupied one is in the bitboards of its color and
/// of its piece kind.
pub open spec fn square_consistent(b: Board, s: int) -> bool {
    let m = b.mailbox[s];
    let t = s as u64;
    match mailbox_content(m) {
        None => no_bits_at(b, t),
        Some((piece, color)) => has_bit(color_bb(b, color), t) && has_bit(piece_bb(b, piece), t),
    }
}

/// Every square of the board is consistent.
pub open spec fn consistent(b: Board) -> bool {
    forall|s: int| 0 <= s < 64 ==> #[trigger] square_consistent(b, s)
}

/// `b` holds nothing: empty bitboards and mailbox, white to move, no
/// castling rights, move 1, no en-passant square.
pub open spec fn is_empty_board(b: Board) -> bool {
    &&& b.pawns == 0 && b.knights == 0 && b.bishops == 0 && b.rooks == 0
    &&& b.queens == 0 && b.kings == 0 && b.white == 0 && b.black == 0
    &&& b.white_to_move
    &&& b.castling == 0
    &&& b.halfmove_clock == 0
    &&& b.fullmove_number == 1
    &&& b.ep_square == Square(NO_SQUARE_INDEX)
    &&& b.hash == 0
    &&& forall|s: int| 0 <= s < 64 ==> #[trigger] b.mailbox[s] == EMPTY_MAILBOX
}

/// `new` holds the squares of `old`, plus square `s` when `add` is set.
pub open spec fn bits_added(old: u64, new: u64, s: u8, add: bool) -> bool {
    forall|i: u64| i < 64 ==> (#[trigger] has_bit(new, i) == (has_bit(old, i) || (add && i == s)))
}

/// `new` is `old` with `piece` of `color` put on square `s`: the mailbox
/// code is written and square `s` is added to the bitboards of the color
/// and of the piece kind; nothing else changes.
pub open spec fn placed(old: Board, new: Board, s: u8, piece: Piece, color: Color) -> bool {
    &&& new.mailbox@ == old.mailbox@.update(s as int, mailbox_code(piece, color))
    &&& bits_added(old.white, new.white, s, color == Color::White)
    &&& bits_added(old.black, new.black, s, color == Color::Black)
    &&& bits_added(old.pawns, new.pawns, s, piece == Piece::Pawn)
    &&& bits_added(old.knights, new.knights, s, piece == Piece::Knight)
    &&& bits_added(old.bishops, new.bishops, s, piece == Piece::Bishop)
    &&& bits_added(old.rooks, new.rooks, s, piece == Piece::Rook)
    &&& bits_added(old.queens, new.queens, s, piece == Piece::Queen)
    &&& bits_added(old.kings, new.kings, s, piece == Piece::King)
    &&& new.white_to_move == old.white_to_move
    &&& new.castling == old.castling
    &&& new.halfmove_clock == old.halfmove_clock
    &&& new.fullmove_number == old.fullmove_number
    &&& new.ep_square == old.ep_square
    &&& new.hash == old.hash
}

proof fn lemma_or_single(old: u64, bb: u64, s: u8, add: bool)
    requires
        s < 64,
        forall|i: u64| i < 64 ==> (#[trigger] has_bit(bb, i) <==> i == s),
    ensures
        bits_added(old, if add { old | bb } else { old }, s, add),
{
    let new = if add { old | bb } else { old };
    assert forall|i: u64| i < 64 implies (#[trigger] has_bit(new, i) == (has_bit(old, i) || (add && i == s))) by {
        lemma_bit_ops(old, bb, i);
    }
}

/// The empty board is consistent.
pub proof fn lemma_empty_board_consistent(b: Board)
    requires
        is_empty_board(b),
    ensures
        consistent(b),
{
    assert forall|s: int| 0 <= s < 64 implies #[trigger] square_consistent(b, s) by {
        lemma_bit_ops(0, 0, s as u64);
    }
}

/// Putting a piece on an empty square of a consistent board keeps it
/// consistent.
pub proof fn lemma_place_keeps_consistent(old: Board, new: Board, s: u8, piece: Piece, color: Color)
    requires
        consistent(old),
        s < 64,
        old.mailbox[s as int] == EMPTY_MAILBOX,
        placed(old, new, s, piece, color),
    ensures
        consistent(new),
{
    lemma_mailbox_code_roundtrip(piece, color);
    assert forall|u: int| 0 <= u < 64 implies #[trigger] square_consistent(new, u) by {
        assert(square_consistent(old, u));
        let t = u as u64;
        assert(has_bit(new.white, t) == (has_bit(old.white, t) || (color == Color::White && t == s)));
        assert(has_bit(new.black, t) == (has_bit(old.black, t) || (color == Color::Black && t == s)));
        assert(has_bit(new.pawns, t) == (has_bit(old.pawns, t) || (piece == Piece::Pawn && t == s)));
        assert(has_bit(new.knights, t) == (has_bit(old.knights, t) || (piece == Piece::Knight && t == s)));
        assert(has_bit(new.bishops, t) == (has_bit(old.bishops, t) || (piece == Piece::Bishop && t == s)));
        assert(has_bit(new.rooks, t) == (has_bit(old.rooks, t) || (piece == Piece::Rook && t == s)));
        assert(has_bit(new.queens, t) == (has_bit(old.queens, t) || (piece == Piece::Queen && t == s)));
        assert(has_bit(new.kings, t) == (has_bit(old.kings, t) || (piece == Piece::King && t == s)));
        assert(new.mailbox[u] == new.mailbox@[u]);
        if u != s {
            assert(new.mailbox[u] == old.mailbox[u]);
        }
    }
}

/// After a piece is put on square `s`, the square reads back as that piece:
/// its mailbox code names the piece and its color, and square `s` is added
/// to the bitboard of that color and of that kind and to no other. Every
/// other square's mailbox reads as before.
pub proof fn lemma_place_then_read(old: Board, new: Board, s: u8, piece: Piece, color: Color)
    requires
        s < 64,
        placed(old, new, s, piece, color),
    ensures
        mailbox_content(new.mailbox[s as int]) == Some((piece, color)),
        has_bit(color_bb(new, color), s as u64),
        has_bit(piece_bb(new, piece), s as u64),
        forall|u: int| 0 <= u < 64 && u != s ==> #[trigger] new.mailbox[u] == old.mailbox[u],
        has_bit(new.white, s as u64) == (has_bit(old.white, s as u64) || color == Color::White),
        has_bit(new.black, s as u64) == (has_bit(old.black, s as u64) || color == Color::Black),
        has_bit(new.pawns, s as u64) == (has_bit(old.pawns, s as u64) || piece == Piece::Pawn),
        has_bit(new.knights, s as u64) == (has_bit(old.knights, s as u64) || piece == Piece::Knight),
        has_bit(new.bishops, s as u64) == (has_bit(old.bishops, s as u64) || piece == Piece::Bishop),
        has_bit(new.rooks, s as u64) == (has_bit(old.rooks, s as u64) || piece == Piece::Rook),
        has_bit(new.queens, s as u64) == (has_bit(old.queens, s as u64) || piece == Piece::Queen),
        has_bit(new.kings, s as u64) == (has_bit(old.kings, s as u64) || piece == Piece::King),
{
    lemma_mailbox_code_roundtrip(piece, color);
    assert(new.mailbox[s as int] == new.mailbox@[s as int]);
    assert(has_bit(new.white, s as u64) == (has_bit(old.white, s as u64) || color == Color::White));
    assert(has_bit(new.black, s as u64) == (has_bit(old.black, s as u64) || color == Color::Black));
    assert(has_bit(new.pawns, s as u64) == (has_bit(old.pawns, s as u64) || piece == Piece::Pawn));
    assert(has_bit(new.knights, s as u64) == (has_bit(old.knights, s as u64) || piece == Piece::Knight));
    assert(has_bit(new.bishops, s as u64) == (has_bit(old.bishops, s as u64) || piece == Piece::Bishop));
    assert(has_bit(new.rooks, s as u64) == (has_bit(old.rooks, s as u64) || piece == Piece::Rook));
    assert(has_bit(new.queens, s as u64) == (has_bit(old.queens, s as u64) || piece == Piece::Queen));
    assert(has_bit(new.kings, s as u64) == (has_bit(old.kings, s as u64) || piece == Piece::King));
    assert forall|u: int| 0 <= u < 64 && u != s implies #[trigger] new.mailbox[u] == old.mailbox[u] by {
        assert(new.mailbox[u] == new.mailbox@[u]);
        assert(old.mailbox[u] == old.mailbox@[u]);
    }
}

/// Consistency in terms of the mailbox numbers: on each square, the empty
/// code 12 goes with no bit in any of the eight bitboards; any other code
/// goes with the white bit when below 6 and the black bit otherwise, and
/// with the bit of the pawns, knights, bishops, rooks, queens or kings as
/// the code modulo 6 is 0, 1, 2, 3, 4 or 5.
pub proof fn lemma_consistent_by_codes(b: Board)
    ensures
        consistent(b) <==> forall|s: int|
            #![trigger b.mailbox[s]]
            0 <= s < 64 ==> {
                let m = b.mailbox[s];
                let t = s as u64;
                &&& m == 12 ==> {
                    &&& !has_bit(b.white, t) && !has_bit(b.black, t)
                    &&& !has_bit(b.pawns, t) && !has_bit(b.knights, t) && !has_bit(b.bishops, t)
                    &&& !has_bit(b.rooks, t) && !has_bit(b.queens, t) && !has_bit(b.kings, t)
                }
                &&& m != 12 && m < 6 ==> has_bit(b.white, t)
                &&& m != 12 && m >= 6 ==> has_bit(b.black, t)
                &&& m != 12 && m % 6 == 0 ==> has_bit(b.pawns, t)
                &&& m != 12 && m % 6 == 1 ==> has_bit(b.knights, t)
                &&& m != 12 && m % 6 == 2 ==> has_bit(b.bishops, t)
                &&& m != 12 && m % 6 == 3 ==> has_bit(b.rooks, t)
                &&& m != 12 && m % 6 == 4 ==> has_bit(b.queens, t)
                &&& m != 12 && m % 6 == 5 ==> has_bit(b.kings, t)
            },
{
    if consistent(b) {
        assert forall|s: int| 0 <= s < 64 implies #[trigger] code_agrees(b, s) by {
            assert(square_consistent(b, s));
        }
    }
    if forall|s: int| #![trigger b.mailbox[s]] 0 <= s < 64 ==> code_agrees(b, s) {
        assert forall|s: int| 0 <= s < 64 implies #[trigger] square_consistent(b, s) by {
            assert(code_agrees(b, s));
        }
    }
}

/// The mailbox code on square `s` agrees with the bitboards, in numbers.
spec fn code_agrees(b: Board, s: int) -> bool {
    let m = b.mailbox[s];
    let t = s as u64;
    &&& m == 12 ==> {
        &&& !has_bit(b.white, t) && !has_bit(b.black, t)
        &&& !has_bit(b.pawns, t) && !has_bit(b.knights, t) && !has_bit(b.bishops, t)
        &&& !has_bit(b.rooks, t) && !has_bit(b.queens, t) && !has_bit(b.kings, t)
    }
    &&& m != 12 && m < 6 ==> has_bit(b.white, t)
    &&& m != 12 && m >= 6 ==> has_bit(b.black, t)
    &&& m != 12 && m % 6 == 0 ==> has_bit(b.pawns, t)
    &&& m != 12 && m % 6 == 1 ==> has_bit(b.knights, t)
    &&& m != 12 && m % 6 == 2 ==> has_bit(b.bishops, t)
    &&& m != 12 && m % 6 == 3 ==> has_bit(b.rooks, t)
    &&& m != 12 && m % 6 == 4 ==> has_bit(b.queens, t)
    &&& m != 12 && m % 6 == 5 ==> has_bit(b.kings, t)
}

impl Default for Board {
    /// The empty board.
    fn default() -> (r: Self)
        ensures
            is_empty_board(r),
    {
        Self {
            pawns: 0,
            knights: 0,
            bishops: 0,
            rooks: 0,
            queens: 0,
            kings: 0,
            white: 0,
            black: 0,
            white_to_move: true,
            castling: 0,
            halfmove_clock: 0,
            fullmove_number: 1,
            ep_square: Square(NO_SQUARE_INDEX),
            hash: 0,
            mailbox: [EMPTY_MAILBOX; 64],
        }
    }
}

impl Board {
    /// The bitboards of the initial position, white to move, all castling
    /// rights, move 1, no en-passant square. The mailbox is left empty.
    pub fn startpos() -> (r: Self)
        ensures
            r.pawns == 0x00FF00000000FF00,
            r.knights == 0x4200000000000042,
            r.bishops == 0x2400000000000024,
            r.rooks == 0x8100000000000081,
            r.queens == 0x0800000000000008,
            r.kings == 0x1000000000000010,
            r.white == 0x000000000000FFFF,
            r.black == 0xFFFF000000000000,
            r.white_to_move,
            r.castling == 0b1111,
            r.halfmove_clock == 0,
            r.fullmove_number == 1,
            r.ep_square == Square(NO_SQUARE_INDEX),
            r.hash == 0,
            forall|s: int| 0 <= s < 64 ==> #[trigger] r.mailbox[s] == EMPTY_MAILBOX,
    {
        Self {
            pawns: 0x00FF00000000FF00,
            knights: 0x4200000000000042,
            bishops: 0x2400000000000024,
            rooks: 0x8100000000000081,
            queens: 0x0800000000000008,
            kings: 0x1000000000000010,
            white: 0x000000000000FFFF,
            black: 0xFFFF000000000000,
            white_to_move: true,
            castling: 0b1111,
            halfmove_clock: 0,
            fullmove_number: 1,
            ep_square: Square(NO_SQUARE_INDEX),
            hash: 0,
            mailbox: [EMPTY_MAILBOX; 64],
        }
    }

    /// Puts `piece` of `color` on `square`. Fails with `InvalidSquare`, and
    /// changes nothing, when the square is off the board or not empty.
    pub fn place_piece(&mut self, square: Square, piece: Piece, color: Color) -> (r: Result<
        (),
        BoardErr,
    >)
        ensures
            square.0 >= 64 ==> r == Err::<(), BoardErr>(BoardErr::InvalidSquare) && *final(self)
                == *old(self),
            square.0 < 64 && old(self).mailbox[square.0 as int] != EMPTY_MAILBOX ==> r == Err::<
                (),
                BoardErr,
            >(BoardErr::InvalidSquare) && *final(self) == *old(self),
            square.0 < 64 && old(self).mailbox[square.0 as int] == EMPTY_MAILBOX ==> r == Ok::<
                (),
                BoardErr,
            >(()) && placed(*old(self), *final(self), square.0, piece, color),
    {
        if !square.is_on_board() {
            return Err(BoardErr::InvalidSquare);
        }
        let idx = square.to_index();
        if self.mailbox[idx] != EMPTY_MAILBOX {
            return Err(BoardErr::InvalidSquare);
        }
        let ghost before = *self;
        self.mailbox[idx] = color_and_piece_to_mailbox(piece, color);
        let bb = square.bitboard();
        proof {
            lemma_or_single(before.white, bb, square.0, color == Color::White);
            lemma_or_single(before.black, bb, square.0, color == Color::Black);
            lemma_or_single(before.pawns, bb, square.0, piece == Piece::Pawn);
            lemma_or_single(before.knights, bb, square.0, piece == Piece::Knight);
            lemma_or_single(before.bishops, bb, square.0, piece == Piece::Bishop);
            lemma_or_single(before.rooks, bb, square.0, piece == Piece::Rook);
            lemma_or_single(before.queens, bb, square.0, piece == Piece::Queen);
            lemma_or_single(before.kings, bb, square.0, piece == Piece::King);
        }
        match color {
            Color::White => { self.white |= square.bitboard() },
            Color::Black => { self.black |= square.bitboard() },
        }
        match piece {
            Piece::Pawn => { self.pawns |= square.bitboard() },
            Piece::Knight => { self.knights |= square.bitboard() },
            Piece::Bishop => { self.bishops |= square.bitboard() },
            Piece::Rook => { self.rooks |= square.bitboard() },
            Piece::Queen => { self.queens |= square.bitboard() },
            Piece::King => { self.kings |= square.bitboard() },
        }
        Ok(())
    }

    /// Checks that the mailbox and the bitboards agree on every square.
    pub fn check_consistency(&self) -> (r: Result<(), BoardErr>)
        ensures
            r == (if consistent(*self) {
                Ok::<(), BoardErr>(())
            } else {
                Err(BoardErr::InconsistentState)
            }),
    {
        let mut idx: usize = 0;
        while idx < 64
            invariant
                idx <= 64,
                forall|s: int| 0 <= s < idx ==> #[trigger] square_consistent(*self, s),
            decreases 64 - idx,
        {
            let square = Square(idx as u8);
            let bb = square.bitboard();
            let mailbox = self.mailbox[idx];
            let t = idx as u64;
            proof {
                lemma_meets_single(bb, t, self.white);
                lemma_meets_single(bb, t, self.black);
                lemma_meets_single(bb, t, self.pawns);
                lemma_meets_single(bb, t, self.knights);
                lemma_meets_single(bb, t, self.bishops);
                lemma_meets_single(bb, t, self.rooks);
                lemma_meets_single(bb, t, self.queens);
                lemma_meets_single(bb, t, self.kings);
            }
            if mailbox == EMPTY_MAILBOX {
                if (self.white & bb) != 0 || (self.black & bb) != 0 || (self.pawns & bb) != 0
                    || (self.knights & bb) != 0 || (self.bishops & bb) != 0 || (self.rooks & bb)
                    != 0 || (self.queens & bb) != 0 || (self.kings & bb) != 0 {
                    proof {
                        assert(!square_consistent(*self, idx as int));
                    }
                    return Err(BoardErr::InconsistentState);
                }
                idx += 1;
                continue;
            }
            let (piece, color) = match mailbox_to_color_and_piece(mailbox) {
                Some(pc) => pc,
                None => { return Err(BoardErr::InconsistentState); },
            };
            let color_ok = match color {
                Color::White => (self.white & bb) != 0,
                Color::Black => (self.black & bb) != 0,
            };
            if !color_ok {
                proof {
                    assert(!square_consistent(*self, idx as int));
                }
                return Err(BoardErr::InconsistentState);
            }
            let piece_ok = match piece {
                Piece::Pawn => (self.pawns & bb) != 0,
                Piece::Knight => (self.knights & bb) != 0,
                Piece::Bishop => (self.bishops & bb) != 0,
                Piece::Rook => (self.rooks & bb) != 0,
                Piece::Queen => (self.queens & bb) != 0,
                Piece::King => (self.kings & bb) != 0,
            };
            if !piece_ok {
                proof {
                    assert(!square_consistent(*self, idx as int));
                }
                return Err(BoardErr::InconsistentState);
            }
            idx += 1;
        }
        Ok(())
    }
}

} // verus!
