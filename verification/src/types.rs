//! Colors, pieces, squares, moves, and the board constants.
use vstd::prelude::*;

use crate::bits::{has_bit, lemma_bit_single, lemma_bit_ops};
use crate::text::push_char;

verus! {

/// Side of a piece.
#[derive(Debug, Clone, Copy, PartialEq, Eq, Structural)]
pub enum Color {
    White,
    Black,
}

/// Kind of a piece.
#[derive(Debug, Clone, Copy, PartialEq, Eq, Structural)]
pub enum Piece {
    Pawn,
    Knight,
    Bishop,
    Rook,
    Queen,
    King,
}

/// A square index: `rank * 8 + file`, with a1 = 0 and h8 = 63.
/// Values from 64 up lie off the board; 64 itself means "no square".
#[derive(Debug, Clone, Copy, PartialEq, Eq, Structural)]
pub struct Square(pub u8);

/// Mailbox value of an empty square.
pub const EMPTY_MAILBOX: u8 = 12;

/// Index of the square that stands for "no square" (one past h8).
pub const NO_SQUARE_INDEX: u8 = 64;

pub const A_FILE: u64 = 0x0101010101010101;
pub const B_FILE: u64 = 0x0202020202020202;
pub const C_FILE: u64 = 0x0404040404040404;
pub const D_FILE: u64 = 0x0808080808080808;
pub const E_FILE: u64 = 0x1010101010101010;
pub const F_FILE: u64 = 0x2020202020202020;
pub const G_FILE: u64 = 0x4040404040404040;
pub const H_FILE: u64 = 0x8080808080808080;

/// The file masks, a-file first.
pub const FILES: [u64; 8] = [
    0x0101010101010101,
    0x0202020202020202,
    0x0404040404040404,
    0x0808080808080808,
    0x1010101010101010,
    0x2020202020202020,
    0x4040404040404040,
    0x8080808080808080,
];

pub const RANK_1: u64 = 0x00000000000000FF;
pub const RANK_2: u64 = 0x000000000000FF00;
pub const RANK_3: u64 = 0x0000000000FF0000;
pub const RANK_4: u64 = 0x00000000FF000000;
pub const RANK_5: u64 = 0x000000FF00000000;
pub const RANK_6: u64 = 0x0000FF0000000000;
pub const RANK_7: u64 = 0x00FF000000000000;
pub const RANK_8: u64 = 0xFF00000000000000;

/// The rank masks, rank 1 first.
pub const RANKS: [u64; 8] = [
    0x00000000000000FF,
    0x000000000000FF00,
    0x0000000000FF0000,
    0x00000000FF000000,
    0x000000FF00000000,
    0x0000FF0000000000,
    0x00FF000000000000,
    0xFF00000000000000,
];

pub const DIAGONAL_A1_H8: u64 = 0x8040201008040201;
pub const DIAGONAL_H1_A8: u64 = 0x0102040810204080;

pub const LIGHT_SQUARES: u64 = 0x55AA55AA55AA55AA;
pub const DARK_SQUARES: u64 = 0xAA55AA55AA55AA55;

pub const CASTLE_WHITE_KINGSIDE: u8 = 0b0001;
pub const CASTLE_WHITE_QUEENSIDE: u8 = 0b0010;
pub const CASTLE_BLACK_KINGSIDE: u8 = 0b0100;
pub const CASTLE_BLACK_QUEENSIDE: u8 = 0b1000;

/// The square that stands for "no square" (one past h8).
pub fn no_square() -> (r: Square)
    ensures
        r == Square(NO_SQUARE_INDEX),
{
    Square(NO_SQUARE_INDEX)
}

/// Index of a piece kind: pawn 0, knight 1, bishop 2, rook 3, queen 4, king 5.
pub open spec fn piece_index(piece: Piece) -> u8 {
    match piece {
        Piece::Pawn => 0,
        Piece::Knight => 1,
        Piece::Bishop => 2,
        Piece::Rook => 3,
        Piece::Queen => 4,
        Piece::King => 5,
    }
}

/// The piece kind with index `i` (taken modulo 6).
pub open spec fn piece_of_index(i: u8) -> Piece {
    if i % 6 == 0 {
        Piece::Pawn
    } else if i % 6 == 1 {
        Piece::Knight
    } else if i % 6 == 2 {
        Piece::Bishop
    } else if i % 6 == 3 {
        Piece::Rook
    } else if i % 6 == 4 {
        Piece::Queen
    } else {
        Piece::King
    }
}

/// Mailbox code of a piece: its index, plus 6 for black.
pub open spec fn mailbox_code(piece: Piece, color: Color) -> u8 {
    match color {
        Color::White => piece_index(piece),
        Color::Black => (piece_index(piece) + 6) as u8,
    }
}

/// What a mailbox value stands for: nothing for the empty value; otherwise
/// the piece of index `n % 6`, white below 6 and black from 6 up.
pub open spec fn mailbox_content(n: u8) -> Option<(Piece, Color)> {
    if n == EMPTY_MAILBOX {
        None
    } else {
        Some((piece_of_index(n), if n < 6 { Color::White } else { Color::Black }))
    }
}

/// Reading back a code gives the piece and color that made it.
pub proof fn lemma_mailbox_code_roundtrip(piece: Piece, color: Color)
    ensures
        mailbox_code(piece, color) < 12,
        mailbox_content(mailbox_code(piece, color)) == Some((piece, color)),
{
}

/// The mailbox codes in numbers: pawn 0, knight 1, bishop 2, rook 3,
/// queen 4, king 5 for white, and 6 more for black. Read back, 12 is the
/// empty square; any other code is white exactly when it is below 6, and its
/// piece is given by the code modulo 6.
pub proof fn lemma_mailbox_code_values()
    ensures
        mailbox_code(Piece::Pawn, Color::White) == 0,
        mailbox_code(Piece::Knight, Color::White) == 1,
        mailbox_code(Piece::Bishop, Color::White) == 2,
        mailbox_code(Piece::Rook, Color::White) == 3,
        mailbox_code(Piece::Queen, Color::White) == 4,
        mailbox_code(Piece::King, Color::White) == 5,
        mailbox_code(Piece::Pawn, Color::Black) == 6,
        mailbox_code(Piece::Knight, Color::Black) == 7,
        mailbox_code(Piece::Bishop, Color::Black) == 8,
        mailbox_code(Piece::Rook, Color::Black) == 9,
        mailbox_code(Piece::Queen, Color::Black) == 10,
        mailbox_code(Piece::King, Color::Black) == 11,
        mailbox_content(12) is None,
        forall|n: u8| n != 12 ==> (#[trigger] mailbox_content(n)) is Some,
        forall|n: u8| n != 12 ==> ((#[trigger] mailbox_content(n))->Some_0.1 == Color::White <==> n < 6),
        forall|n: u8|
            n != 12 ==> {
                let p = (#[trigger] mailbox_content(n))->Some_0.0;
                &&& n % 6 == 0 <==> p == Piece::Pawn
                &&& n % 6 == 1 <==> p == Piece::Knight
                &&& n % 6 == 2 <==> p == Piece::Bishop
                &&& n % 6 == 3 <==> p == Piece::Rook
                &&& n % 6 == 4 <==> p == Piece::Queen
                &&& n % 6 == 5 <==> p == Piece::King
            },
{
}

/// The mailbox code of `piece` and `color`.
pub fn color_and_piece_to_mailbox(piece: Piece, color: Color) -> (r: u8)
    ensures
        r == mailbox_code(piece, color),
{
    let piece_index: u8 = match piece {
        Piece::Pawn => 0,
        Piece::Knight => 1,
        Piece::Bishop => 2,
        Piece::Rook => 3,
        Piece::Queen => 4,
        Piece::King => 5,
    };
    let color_offset: u8 = match color {
        Color::White => 0,
        Color::Black => 6,
    };
    piece_index + color_offset
}

/// The piece and color that a mailbox value stands for.
pub fn mailbox_to_color_and_piece(n: u8) -> (r: Option<(Piece, Color)>)
    ensures
        r == mailbox_content(n),
{
    if n == EMPTY_MAILBOX {
        return None;
    }
    let color = if n < 6 {
        Color::White
    } else {
        Color::Black
    };
    let piece = match n % 6 {
        0 => Piece::Pawn,
        1 => Piece::Knight,
        2 => Piece::Bishop,
        3 => Piece::Rook,
        4 => Piece::Queen,
        5 => Piece::King,
        _ => return None,
    };
    Some((piece, color))
}

/// Rank (0 for rank 1) of square index `s`.
pub open spec fn rank_of(s: int) -> int {
    s / 8
}

/// File (0 for the a-file) of square index `s`.
pub open spec fn file_of(s: int) -> int {
    s % 8
}

/// The square on rank `r` and file `f` of the board lies on the board, and
/// its rank and file are `r` and `f`.
pub proof fn lemma_square_coords(r: int, f: int)
    requires
        0 <= r < 8,
        0 <= f < 8,
    ensures
        0 <= r * 8 + f < 64,
        rank_of(r * 8 + f) == r,
        file_of(r * 8 + f) == f,
{
}

impl Square {
    /// The square on `rank` and `file`.
    pub fn from_rank_file(rank: u8, file: u8) -> (r: Self)
        requires
            rank * 8 + file <= u8::MAX,
        ensures
            r.0 == rank * 8 + file,
    {
        Square(rank * 8 + file)
    }

    /// Rank of the square (0 for rank 1).
    pub fn rank(self) -> (r: u8)
        ensures
            r == rank_of(self.0 as int),
    {
        self.0 / 8
    }

    /// File of the square (0 for the a-file).
    pub fn file(self) -> (r: u8)
        ensures
            r == file_of(self.0 as int),
    {
        self.0 % 8
    }

    /// The bitboard that holds this square alone; empty off the board.
    pub fn bitboard(self) -> (r: u64)
        ensures
            forall|i: u64| i < 64 ==> (#[trigger] has_bit(r, i) <==> i == self.0),
            self.0 >= 64 ==> r == 0,
            self.0 < 64 ==> r == 1u64 << self.0,
    {
        let r = if self.0 >= 64 {
            0
        } else {
            1u64 << self.0
        };
        proof {
            assert forall|i: u64| i < 64 implies (#[trigger] has_bit(r, i) <==> i == self.0) by {
                lemma_bit_ops(0, 0, i);
                if self.0 < 64 {
                    lemma_bit_single(self.0 as u64, i);
                }
            }
        }
        r
    }

    /// Whether `rank` and `file` name a square of the board.
    pub fn is_valid(rank: u8, file: u8) -> (r: bool)
        ensures
            r == (rank < 8 && file < 8),
    {
        rank < 8 && file < 8
    }

    /// The square as an index.
    pub fn to_index(self) -> (r: usize)
        ensures
            r == self.0,
    {
        self.0 as usize
    }

    /// Whether the square lies on the board.
    pub fn is_on_board(self) -> (r: bool)
        ensures
            r == (self.0 < 64),
    {
        self.0 < 64
    }

    /// Algebraic name of the square, such as "e4": the file letter counted
    /// from 'a', then the rank digit counted from '1'.
    pub fn to_algebraic(self) -> (r: String)
        ensures
            r@ == seq![
                ((97u8) + file_of(self.0 as int)) as char,
                ((49u8) + rank_of(self.0 as int)) as char,
            ],
    {
        let file = (97u8 + self.file()) as char;
        let rank = (49u8 + self.rank()) as char;
        let mut s = String::new();
        push_char(&mut s, file);
        push_char(&mut s, rank);
        s
    }
}

/// Kind of a move.
#[derive(Debug, Clone, Copy, PartialEq, Eq, Structural)]
pub enum MoveType {
    Quiet,
    DoublePush,
    Capture,
    Castle,
    EnPassant,
    Promotion(Piece),
}

/// A move from one square to another.
#[derive(Debug, Clone, Copy, PartialEq, Eq, Structural)]
pub struct Move {
    pub from: Square,
    pub to: Square,
    pub kind: MoveType,
}

/// A list of moves.
pub struct Moves(pub Vec<Move>);

impl Moves {
    /// An empty list.
    pub fn new() -> (r: Self)
        ensures
            r.0@ == Seq::<Move>::empty(),
    {
        Moves(Vec::new())
    }
}

impl IntoIterator for Moves {
    type Item = Move;
    type IntoIter = std::vec::IntoIter<Move>;

    /// The moves of the list, in order.
    fn into_iter(self) -> (r: std::vec::IntoIter<Move>)
        ensures
            r == self.0.into_iter(),
            vstd::std_specs::iter::IteratorSpec::remaining(&r) == self.0@,
    {
        proof {
            vstd::std_specs::vec::axiom_spec_into_iter(self.0);
        }
        self.0.into_iter()
    }
}

} // verus!
