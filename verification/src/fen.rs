//! Reading and writing positions in Forsyth-Edwards Notation.
//!
//! A FEN string has six fields separated by white space: the piece
//! placement (ranks 8 down to 1, separated by `/`, a digit standing for
//! that many empty squares), the side to move (`w` or `b`), the castling
//! rights (`KQkq` or `-`), the en-passant square (`-`, or a file letter and
//! rank 3 or 6), the half-move clock and the full-move number.
use vstd::prelude::*;

use crate::bits::has_bit;
use crate::board::{consistent, is_empty_board, placed, square_consistent, Board};
use crate::text::{
    decimal, push_char, push_decimal, digit_value, is_digit, parse_unsigned, parse_unsigned_max, split_char, split_on, split_whitespace,
    str_chars, words,
};
use crate::types::{
    file_of, lemma_mailbox_code_roundtrip, mailbox_code, mailbox_content, mailbox_to_color_and_piece,
    piece_of_index, rank_of, Color, Piece, Square,
    CASTLE_BLACK_KINGSIDE, CASTLE_BLACK_QUEENSIDE, CASTLE_WHITE_KINGSIDE, CASTLE_WHITE_QUEENSIDE,
    EMPTY_MAILBOX, NO_SQUARE_INDEX,
};

verus! {

/// Errors of FEN reading.
#[derive(Debug, Clone, Copy, PartialEq, Eq, Structural)]
pub enum FenError {
    InvalidFieldCount,
    InvalidPiece(char),
    InvalidSideToMove,
    InvalidCastling,
    InvalidEnPassant,
    InvalidHalfmoveClock,
    InvalidFullmoveNumber,
    InvalidBoard,
}

/// The content of one square: nothing, or a piece and its color.
pub type Cell = Option<(Piece, Color)>;

/// The piece that a FEN letter names: lower case for black, upper case for
/// white.
pub open spec fn fen_piece(c: char) -> Option<(Piece, Color)> {
    if c == 'p' {
        Some((Piece::Pawn, Color::Black))
    } else if c == 'n' {
        Some((Piece::Knight, Color::Black))
    } else if c == 'b' {
        Some((Piece::Bishop, Color::Black))
    } else if c == 'r' {
        Some((Piece::Rook, Color::Black))
    } else if c == 'q' {
        Some((Piece::Queen, Color::Black))
    } else if c == 'k' {
        Some((Piece::King, Color::Black))
    } else if c == 'P' {
        Some((Piece::Pawn, Color::White))
    } else if c == 'N' {
        Some((Piece::Knight, Color::White))
    } else if c == 'B' {
        Some((Piece::Bishop, Color::White))
    } else if c == 'R' {
        Some((Piece::Rook, Color::White))
    } else if c == 'Q' {
        Some((Piece::Queen, Color::White))
    } else if c == 'K' {
        Some((Piece::King, Color::White))
    } else {
        None
    }
}

/// The FEN letter of a piece.
pub open spec fn fen_char(piece: Piece, color: Color) -> char {
    let c = match piece {
        Piece::Pawn => 'p',
        Piece::Knight => 'n',
        Piece::Bishop => 'b',
        Piece::Rook => 'r',
        Piece::Queen => 'q',
        Piece::King => 'k',
    };
    match color {
        Color::White => match piece {
            Piece::Pawn => 'P',
            Piece::Knight => 'N',
            Piece::Bishop => 'B',
            Piece::Rook => 'R',
            Piece::Queen => 'Q',
            Piece::King => 'K',
        },
        Color::Black => c,
    }
}

/// A run of `n` empty cells.
pub open spec fn empties(n: nat) -> Seq<Cell> {
    Seq::new(n, |i: int| None)
}

/// The cells that the first `n` characters of a rank describe, or the
/// first error: an unknown letter, or more than eight cells.
pub open spec fn rank_cells(r: Seq<char>, n: int) -> Result<Seq<Cell>, FenError>
    decreases n,
{
    if n <= 0 {
        Ok(seq![])
    } else {
        match rank_cells(r, n - 1) {
            Err(e) => Err(e),
            Ok(cells) => {
                let c = r[n - 1];
                if is_digit(c) {
                    let more = cells + empties(digit_value(c));
                    if more.len() > 8 {
                        Err(FenError::InvalidBoard)
                    } else {
                        Ok(more)
                    }
                } else {
                    match fen_piece(c) {
                        None => Err(FenError::InvalidPiece(c)),
                        Some(pc) => if cells.len() + 1 > 8 {
                            Err(FenError::InvalidBoard)
                        } else {
                            Ok(cells.push(Some(pc)))
                        },
                    }
                }
            },
        }
    }
}

/// The eight cells of a rank, files a to h.
pub open spec fn parse_rank_spec(r: Seq<char>) -> Result<Seq<Cell>, FenError> {
    match rank_cells(r, r.len() as int) {
        Err(e) => Err(e),
        Ok(cells) => if cells.len() == 8 {
            Ok(cells)
        } else {
            Err(FenError::InvalidBoard)
        },
    }
}

/// The cells of the first `n` ranks, or the first error.
pub open spec fn parse_ranks(ranks: Seq<Seq<char>>, n: int) -> Result<Seq<Seq<Cell>>, FenError>
    decreases n,
{
    if n <= 0 {
        Ok(seq![])
    } else {
        match parse_ranks(ranks, n - 1) {
            Err(e) => Err(e),
            Ok(done) => match parse_rank_spec(ranks[n - 1]) {
                Err(e) => Err(e),
                Ok(cells) => Ok(done.push(cells)),
            },
        }
    }
}

/// The ranks of a placement field.
pub open spec fn placement_ranks(p: Seq<char>) -> Seq<Seq<char>> {
    split_on(p, '/')
}

/// The cells of a placement field (first rank string is rank 8).
pub open spec fn parse_placement(p: Seq<char>) -> Result<Seq<Seq<Cell>>, FenError> {
    parse_ranks(placement_ranks(p), placement_ranks(p).len() as int)
}

/// A placement with more than eight ranks whose first eight ranks are
/// valid: reading it would reach a ninth rank, which has no place on the
/// board.
pub open spec fn placement_overflows(p: Seq<char>) -> bool {
    placement_ranks(p).len() > 8 && parse_ranks(placement_ranks(p), 8) is Ok
}

/// The cell of square `s` once the ranks `done` (rank 8 first) and the
/// first cells `partial` of the next rank are placed; other squares are
/// empty.
pub open spec fn filled_cell(done: Seq<Seq<Cell>>, partial: Seq<Cell>, s: int) -> Cell {
    let i = 7 - rank_of(s);
    let f = file_of(s);
    if 0 <= i < done.len() {
        done[i][f]
    } else if i == done.len() && f < partial.len() {
        partial[f]
    } else {
        None
    }
}

/// The mailbox code of a cell.
pub open spec fn cell_code(cell: Cell) -> u8 {
    match cell {
        None => EMPTY_MAILBOX,
        Some((p, c)) => mailbox_code(p, c),
    }
}

/// The cell holds a piece of `color`.
pub open spec fn cell_has_color(cell: Cell, color: Color) -> bool {
    match cell {
        None => false,
        Some((_, c)) => c == color,
    }
}

/// The cell holds a piece of kind `piece`.
pub open spec fn cell_has_piece(cell: Cell, piece: Piece) -> bool {
    match cell {
        None => false,
        Some((p, _)) => p == piece,
    }
}

/// Square `s` of `b` holds exactly `cell`: its mailbox code, and square `s`
/// in the bitboards of its color and kind and in no other.
pub open spec fn board_holds(b: Board, s: int, cell: Cell) -> bool {
    let t = s as u64;
    &&& b.mailbox[s] == cell_code(cell)
    &&& has_bit(b.white, t) == cell_has_color(cell, Color::White)
    &&& has_bit(b.black, t) == cell_has_color(cell, Color::Black)
    &&& has_bit(b.pawns, t) == cell_has_piece(cell, Piece::Pawn)
    &&& has_bit(b.knights, t) == cell_has_piece(cell, Piece::Knight)
    &&& has_bit(b.bishops, t) == cell_has_piece(cell, Piece::Bishop)
    &&& has_bit(b.rooks, t) == cell_has_piece(cell, Piece::Rook)
    &&& has_bit(b.queens, t) == cell_has_piece(cell, Piece::Queen)
    &&& has_bit(b.kings, t) == cell_has_piece(cell, Piece::King)
}

/// Every square of `b` holds what the ranks `cells` (rank 8 first) put
/// there, and nothing where they put nothing.
pub open spec fn board_has_cells(b: Board, cells: Seq<Seq<Cell>>) -> bool {
    forall|s: int| 0 <= s < 64 ==> #[trigger] board_holds(b, s, filled_cell(cells, seq![], s))
}

/// `new` and `old` agree on every field but the position (the bitboards
/// and the mailbox).
pub open spec fn same_state(old: Board, new: Board) -> bool {
    &&& new.white_to_move == old.white_to_move
    &&& new.castling == old.castling
    &&& new.halfmove_clock == old.halfmove_clock
    &&& new.fullmove_number == old.fullmove_number
    &&& new.ep_square == old.ep_square
    &&& new.hash == old.hash
}

/// The piece and color that a FEN letter names.
pub fn fen_piece_to_piece_and_color(c: char) -> (r: Result<(Piece, Color), FenError>)
    ensures
        r == (match fen_piece(c) {
            Some(pc) => Ok(pc),
            None => Err(FenError::InvalidPiece(c)),
        }),
{
    match c {
        'p' => Ok((Piece::Pawn, Color::Black)),
        'n' => Ok((Piece::Knight, Color::Black)),
        'b' => Ok((Piece::Bishop, Color::Black)),
        'r' => Ok((Piece::Rook, Color::Black)),
        'q' => Ok((Piece::Queen, Color::Black)),
        'k' => Ok((Piece::King, Color::Black)),
        'P' => Ok((Piece::Pawn, Color::White)),
        'N' => Ok((Piece::Knight, Color::White)),
        'B' => Ok((Piece::Bishop, Color::White)),
        'R' => Ok((Piece::Rook, Color::White)),
        'Q' => Ok((Piece::Queen, Color::White)),
        'K' => Ok((Piece::King, Color::White)),
        _ => Err(FenError::InvalidPiece(c)),
    }
}

/// The FEN letter of a piece.
pub fn piece_and_color_to_fen_piece(piece: Piece, color: Color) -> (r: char)
    ensures
        r == fen_char(piece, color),
{
    let c = match piece {
        Piece::Pawn => 'p',
        Piece::Knight => 'n',
        Piece::Bishop => 'b',
        Piece::Rook => 'r',
        Piece::Queen => 'q',
        Piece::King => 'k',
    };
    match color {
        Color::White => match piece {
            Piece::Pawn => 'P',
            Piece::Knight => 'N',
            Piece::Bishop => 'B',
            Piece::Rook => 'R',
            Piece::Queen => 'Q',
            Piece::King => 'K',
        },
        _ => c,
    }
}

/// The cells of one rank of a placement field.
fn parse_rank(rank_str: &Vec<char>) -> (r: Result<Vec<Cell>, FenError>)
    ensures
        match r {
            Ok(v) => parse_rank_spec(rank_str@) == Ok::<Seq<Cell>, FenError>(v@),
            Err(e) => parse_rank_spec(rank_str@) == Err::<Seq<Cell>, FenError>(e),
        },
{
    let mut cells: Vec<Cell> = Vec::new();
    let mut j: usize = 0;
    while j < rank_str.len()
        invariant
            j <= rank_str.len(),
            rank_cells(rank_str@, j as int) == Ok::<Seq<Cell>, FenError>(cells@),
            cells.len() <= 8,
        decreases rank_str.len() - j,
    {
        let ch = rank_str[j];
        let u = ch as u32;
        if 48 <= u && u <= 57 {
            let empty = u - 48;
            let ghost before = cells@;
            let mut k: u32 = 0;
            while k < empty
                invariant
                    k <= empty,
                    empty <= 9,
                    cells@ == before + empties(k as nat),
                decreases empty - k,
            {
                cells.push(None);
                k += 1;
                proof {
                    assert(cells@ =~= before + empties(k as nat));
                }
            }
            proof {
                assert(digit_value(ch) == empty);
            }
            if cells.len() > 8 {
                proof {
                    lemma_rank_cells_err(rank_str@, j + 1, rank_str.len() as int, FenError::InvalidBoard);
                }
                return Err(FenError::InvalidBoard);
            }
        } else {
            let (piece, color) = match fen_piece_to_piece_and_color(ch) {
                Ok(pc) => pc,
                Err(e) => {
                    proof {
                        lemma_rank_cells_err(rank_str@, j + 1, rank_str.len() as int, e);
                    }
                    return Err(e);
                },
            };
            cells.push(Some((piece, color)));
            if cells.len() > 8 {
                proof {
                    lemma_rank_cells_err(rank_str@, j + 1, rank_str.len() as int, FenError::InvalidBoard);
                }
                return Err(FenError::InvalidBoard);
            }
        }
        j += 1;
    }
    if cells.len() != 8 {
        return Err(FenError::InvalidBoard);
    }
    Ok(cells)
}

proof fn lemma_rank_cells_err(r: Seq<char>, n: int, m: int, e: FenError)
    requires
        0 <= n <= m,
        rank_cells(r, n) == Err::<Seq<Cell>, FenError>(e),
    ensures
        rank_cells(r, m) == Err::<Seq<Cell>, FenError>(e),
    decreases m - n,
{
    if n < m {
        lemma_rank_cells_err(r, n, m - 1, e);
    }
}

proof fn lemma_parse_ranks_err(ranks: Seq<Seq<char>>, n: int, m: int, e: FenError)
    requires
        0 <= n <= m,
        parse_ranks(ranks, n) == Err::<Seq<Seq<Cell>>, FenError>(e),
    ensures
        parse_ranks(ranks, m) == Err::<Seq<Seq<Cell>>, FenError>(e),
    decreases m - n,
{
    if n < m {
        lemma_parse_ranks_err(ranks, n, m - 1, e);
    }
}

/// Placing the next cell of the rank in progress.
proof fn lemma_place_cell(
    old: Board,
    new: Board,
    sq: u8,
    piece: Piece,
    color: Color,
    done: Seq<Seq<Cell>>,
    partial: Seq<Cell>,
)
    requires
        done.len() < 8,
        partial.len() < 8,
        sq == (7 - done.len()) * 8 + partial.len(),
        forall|s: int| 0 <= s < 64 ==> #[trigger] board_holds(old, s, filled_cell(done, partial, s)),
        placed(old, new, sq, piece, color),
    ensures
        forall|s: int|
            0 <= s < 64 ==> #[trigger] board_holds(new, s, filled_cell(done, partial.push(Some((piece, color))), s)),
{
    let np = partial.push(Some((piece, color)));
    assert forall|s: int| 0 <= s < 64 implies #[trigger] board_holds(new, s, filled_cell(done, np, s)) by {
        assert(board_holds(old, s, filled_cell(done, partial, s)));
        let t = s as u64;
        assert(has_bit(new.white, t) == (has_bit(old.white, t) || (color == Color::White && t == sq)));
        assert(has_bit(new.black, t) == (has_bit(old.black, t) || (color == Color::Black && t == sq)));
        assert(has_bit(new.pawns, t) == (has_bit(old.pawns, t) || (piece == Piece::Pawn && t == sq)));
        assert(has_bit(new.knights, t) == (has_bit(old.knights, t) || (piece == Piece::Knight && t == sq)));
        assert(has_bit(new.bishops, t) == (has_bit(old.bishops, t) || (piece == Piece::Bishop && t == sq)));
        assert(has_bit(new.rooks, t) == (has_bit(old.rooks, t) || (piece == Piece::Rook && t == sq)));
        assert(has_bit(new.queens, t) == (has_bit(old.queens, t) || (piece == Piece::Queen && t == sq)));
        assert(has_bit(new.kings, t) == (has_bit(old.kings, t) || (piece == Piece::King && t == sq)));
        assert(new.mailbox[s] == new.mailbox@[s]);
        if s == sq {
            assert(filled_cell(done, partial, s) is None);
            assert(filled_cell(done, np, s) == Some((piece, color)));
        } else {
            assert(new.mailbox[s] == old.mailbox[s]);
            assert(filled_cell(done, np, s) == filled_cell(done, partial, s));
        }
    }
}

/// Reads the placement field onto the empty `board`.
fn parse_piece_placement(board: &mut Board, placement: &Vec<char>) -> (r: Result<(), FenError>)
    requires
        is_empty_board(*old(board)),
        !placement_overflows(placement@),
    ensures
        same_state(*old(board), *final(board)),
        match r {
            Ok(()) => parse_placement(placement@) is Ok && board_has_cells(
                *final(board),
                parse_placement(placement@)->Ok_0,
            ),
            Err(e) => parse_placement(placement@) == Err::<Seq<Seq<Cell>>, FenError>(e),
        },
{
    let ranks = split_char(placement, '/');
    let ghost rs = placement_ranks(placement@);
    let ghost start = *board;
    let ghost mut done: Seq<Seq<Cell>> = seq![];
    let mut rank_idx: usize = 0;
    proof {
        assert forall|s: int| 0 <= s < 64 implies #[trigger] board_holds(*board, s, filled_cell(done, seq![], s)) by {
            crate::bits::lemma_bit_ops(0, 0, s as u64);
        }
    }
    while rank_idx < ranks.len()
        invariant
            ranks.deep_view() == rs,
            rs == placement_ranks(placement@),
            !placement_overflows(placement@),
            rank_idx <= ranks.len(),
            rank_idx <= 8,
            start == *old(board),
            done.len() == rank_idx,
            parse_ranks(rs, rank_idx as int) == Ok::<Seq<Seq<Cell>>, FenError>(done),
            same_state(start, *board),
            forall|s: int| 0 <= s < 64 ==> #[trigger] board_holds(*board, s, filled_cell(done, seq![], s)),
        decreases ranks.len() - rank_idx,
    {
        proof {
            if rank_idx >= 8 {
                assert(rs.len() == ranks.len());
                assert(placement_overflows(placement@));
            }
        }
        let board_rank = 7 - rank_idx;
        proof {
            assert(ranks[rank_idx as int]@ == rs[rank_idx as int]) by {
                assert(ranks.deep_view()[rank_idx as int] == ranks[rank_idx as int].deep_view());
                assert(ranks[rank_idx as int].deep_view() =~= ranks[rank_idx as int]@);
            }
        }
        let cells = match parse_rank(&ranks[rank_idx]) {
            Ok(c) => c,
            Err(e) => {
                proof {
                    lemma_parse_ranks_err(rs, rank_idx + 1, rs.len() as int, e);
                }
                return Err(e);
            },
        };
        let mut file: usize = 0;
        proof {
            assert(cells@.take(0) =~= Seq::<Cell>::empty());
        }
        while file < 8
            invariant
                rank_idx < 8,
                board_rank == 7 - rank_idx,
                done.len() == rank_idx,
                cells@.len() == 8,
                file <= 8,
                same_state(start, *board),
                forall|s: int|
                    0 <= s < 64 ==> #[trigger] board_holds(*board, s, filled_cell(done, cells@.take(file as int), s)),
            decreases 8 - file,
        {
            let ghost partial = cells@.take(file as int);
            proof {
                assert(cells@.take(file + 1) == partial.push(cells@[file as int]));
            }
            match cells[file] {
                Some((piece, color)) => {
                    let square = Square::from_rank_file(board_rank as u8, file as u8);
                    let ghost before = *board;
                    proof {
                        assert(board_holds(before, square.0 as int, filled_cell(done, partial, square.0 as int)));
                    }
                    let _ = board.place_piece(square, piece, color);
                    proof {
                        lemma_place_cell(before, *board, square.0, piece, color, done, partial);
                    }
                },
                None => {
                    proof {
                        assert forall|s: int| 0 <= s < 64 implies #[trigger] board_holds(*board, s, filled_cell(done, partial.push(None), s)) by {
                            assert(board_holds(*board, s, filled_cell(done, partial, s)));
                            assert(filled_cell(done, partial.push(None), s) == filled_cell(done, partial, s));
                        }
                    }
                },
            }
            file += 1;
        }
        proof {
            assert(cells@.take(8) == cells@);
            assert forall|s: int| 0 <= s < 64 implies #[trigger] board_holds(*board, s, filled_cell(done.push(cells@), seq![], s)) by {
                assert(board_holds(*board, s, filled_cell(done, cells@, s)));
                assert(filled_cell(done.push(cells@), seq![], s) == filled_cell(done, cells@, s));
            }
            done = done.push(cells@);
        }
        rank_idx += 1;
    }
    proof {
        assert(rs.len() == ranks.len());
    }
    Ok(())
}

/// The side to move that a field names: `w` for white, `b` for black.
pub open spec fn side_value(s: Seq<char>) -> Option<bool> {
    if s == seq!['w'] {
        Some(true)
    } else if s == seq!['b'] {
        Some(false)
    } else {
        None
    }
}

/// The castling right that a letter names.
pub open spec fn castle_flag(c: char) -> Option<u8> {
    if c == 'K' {
        Some(CASTLE_WHITE_KINGSIDE)
    } else if c == 'Q' {
        Some(CASTLE_WHITE_QUEENSIDE)
    } else if c == 'k' {
        Some(CASTLE_BLACK_KINGSIDE)
    } else if c == 'q' {
        Some(CASTLE_BLACK_QUEENSIDE)
    } else {
        None
    }
}

/// The union of the castling rights that the first `n` letters name, or
/// nothing if one of them is not a castling letter.
pub open spec fn castling_flags(s: Seq<char>, n: int) -> Option<u8>
    decreases n,
{
    if n <= 0 {
        Some(0u8)
    } else {
        match castling_flags(s, n - 1) {
            None => None,
            Some(v) => match castle_flag(s[n - 1]) {
                None => None,
                Some(f) => Some(v | f),
            },
        }
    }
}

/// The castling rights of a field: none for `-`, else the union of its
/// letters.
pub open spec fn castling_value(s: Seq<char>) -> Option<u8> {
    if s == seq!['-'] {
        Some(0u8)
    } else {
        castling_flags(s, s.len() as int)
    }
}

/// The file that a letter `a` to `h` names.
pub open spec fn file_letter(c: char) -> Option<u8> {
    if c == 'a' {
        Some(0u8)
    } else if c == 'b' {
        Some(1u8)
    } else if c == 'c' {
        Some(2u8)
    } else if c == 'd' {
        Some(3u8)
    } else if c == 'e' {
        Some(4u8)
    } else if c == 'f' {
        Some(5u8)
    } else if c == 'g' {
        Some(6u8)
    } else if c == 'h' {
        Some(7u8)
    } else {
        None
    }
}

/// The en-passant square of a field: no square for `-`, else a file letter
/// followed by `3` or `6`.
pub open spec fn ep_value(s: Seq<char>) -> Option<Square> {
    if s == seq!['-'] {
        Some(Square(NO_SQUARE_INDEX))
    } else if s.len() == 2 && file_letter(s[0]) is Some && (s[1] == '3' || s[1] == '6') {
        let rank: u8 = if s[1] == '3' {
            2
        } else {
            5
        };
        Some(Square((rank * 8 + file_letter(s[0])->Some_0) as u8))
    } else {
        None
    }
}

/// Reading `fen` would reach a ninth rank of its placement field.
pub open spec fn fen_overflows(fen: Seq<char>) -> bool {
    words(fen).len() == 6 && placement_overflows(words(fen)[0])
}

/// The first error in `fen`, field by field, or none.
pub open spec fn fen_error(fen: Seq<char>) -> Option<FenError> {
    let f = words(fen);
    if f.len() != 6 {
        Some(FenError::InvalidFieldCount)
    } else if parse_placement(f[0]) is Err {
        Some(parse_placement(f[0])->Err_0)
    } else if side_value(f[1]) is None {
        Some(FenError::InvalidSideToMove)
    } else if castling_value(f[2]) is None {
        Some(FenError::InvalidCastling)
    } else if ep_value(f[3]) is None {
        Some(FenError::InvalidEnPassant)
    } else if parse_unsigned(f[4], 255) is None {
        Some(FenError::InvalidHalfmoveClock)
    } else if parse_unsigned(f[5], 65535) is None {
        Some(FenError::InvalidFullmoveNumber)
    } else {
        None
    }
}

/// `b` is the position that the valid FEN string `fen` describes.
pub open spec fn fen_board(fen: Seq<char>, b: Board) -> bool {
    let f = words(fen);
    &&& board_has_cells(b, parse_placement(f[0])->Ok_0)
    &&& b.white_to_move == side_value(f[1])->Some_0
    &&& b.castling == castling_value(f[2])->Some_0
    &&& b.ep_square == ep_value(f[3])->Some_0
    &&& b.halfmove_clock == parse_unsigned(f[4], 255)->Some_0
    &&& b.fullmove_number == parse_unsigned(f[5], 65535)->Some_0
    &&& b.hash == 0
}

/// Reads the side to move.
fn parse_side_to_move(board: &mut Board, side: &Vec<char>) -> (r: Result<(), FenError>)
    ensures
        match side_value(side@) {
            Some(w) => r == Ok::<(), FenError>(()) && *final(board) == (Board { white_to_move: w, ..*old(board) }),
            None => r == Err::<(), FenError>(FenError::InvalidSideToMove) && *final(board) == *old(board),
        },
{
    if side.len() == 1 && side[0] == 'w' {
        proof {
            assert(side@ =~= seq!['w']);
        }
        board.white_to_move = true;
    } else if side.len() == 1 && side[0] == 'b' {
        proof {
            assert(side@ =~= seq!['b']);
        }
        board.white_to_move = false;
    } else {
        proof {
            if side@ == seq!['w'] || side@ == seq!['b'] {
                assert(side@.len() == 1);
            }
        }
        return Err(FenError::InvalidSideToMove);
    }
    Ok(())
}

/// Reads the castling rights.
fn parse_castling(board: &mut Board, castling: &Vec<char>) -> (r: Result<(), FenError>)
    ensures
        match castling_value(castling@) {
            Some(v) => r == Ok::<(), FenError>(()) && *final(board) == (Board { castling: v, ..*old(board) }),
            None => r == Err::<(), FenError>(FenError::InvalidCastling) && *final(board) == *old(board),
        },
{
    let mut c: u8 = 0b0000;
    if castling.len() == 1 && castling[0] == '-' {
        proof {
            assert(castling@ =~= seq!['-']);
        }
        board.castling = 0b0000;
        return Ok(());
    }
    proof {
        if castling@ == seq!['-'] {
            assert(castling@.len() == 1);
            assert(castling@[0] == '-');
        }
    }
    let mut i: usize = 0;
    while i < castling.len()
        invariant
            castling@ != seq!['-'],
            *board == *old(board),
            i <= castling.len(),
            castling_flags(castling@, i as int) == Some(c),
        decreases castling.len() - i,
    {
        let ch = castling[i];
        if ch == 'K' {
            c |= CASTLE_WHITE_KINGSIDE;
        } else if ch == 'Q' {
            c |= CASTLE_WHITE_QUEENSIDE;
        } else if ch == 'k' {
            c |= CASTLE_BLACK_KINGSIDE;
        } else if ch == 'q' {
            c |= CASTLE_BLACK_QUEENSIDE;
        } else {
            proof {
                assert(castling@[i as int] == ch);
                assert(castle_flag(ch) is None);
                assert(castling_flags(castling@, i + 1) is None);
                lemma_castling_flags_none(castling@, i + 1, castling@.len() as int);
            }
            return Err(FenError::InvalidCastling);
        }
        i += 1;
    }
    board.castling = c;
    Ok(())
}

proof fn lemma_castling_flags_none(s: Seq<char>, n: int, m: int)
    requires
        0 <= n <= m,
        castling_flags(s, n) is None,
    ensures
        castling_flags(s, m) is None,
    decreases m - n,
{
    if n < m {
        lemma_castling_flags_none(s, n, m - 1);
    }
}

/// Reads the en-passant square.
pub fn parse_en_passant(board: &mut Board, ep: &Vec<char>) -> (r: Result<(), FenError>)
    ensures
        match ep_value(ep@) {
            Some(sq) => r == Ok::<(), FenError>(()) && *final(board) == (Board { ep_square: sq, ..*old(board) }),
            None => r == Err::<(), FenError>(FenError::InvalidEnPassant) && *final(board) == *old(board),
        },
{
    if ep.len() == 1 && ep[0] == '-' {
        proof {
            assert(ep@ =~= seq!['-']);
        }
        board.ep_square = Square(NO_SQUARE_INDEX);
        return Ok(());
    }
    proof {
        if ep@ == seq!['-'] {
            assert(ep@.len() == 1);
        }
    }
    if ep.len() < 2 {
        return Err(FenError::InvalidEnPassant);
    }
    let file_char = ep[0];
    let rank_char = ep[1];
    if ep.len() > 2 {
        return Err(FenError::InvalidEnPassant);
    }
    let file: u8 = match file_char {
        'a' => 0,
        'b' => 1,
        'c' => 2,
        'd' => 3,
        'e' => 4,
        'f' => 5,
        'g' => 6,
        'h' => 7,
        _ => {
            return Err(FenError::InvalidEnPassant);
        },
    };
    let rank: u8 = match rank_char {
        '3' => 2,
        '6' => 5,
        _ => {
            return Err(FenError::InvalidEnPassant);
        },
    };
    board.ep_square = Square::from_rank_file(rank, file);
    Ok(())
}

proof fn lemma_nested_view(v: Vec<Vec<char>>, i: int)
    requires
        0 <= i < v.len(),
    ensures
        v[i]@ == v.deep_view()[i],
{
    assert(v[i].deep_view() =~= v[i]@);
}

impl Board {
    /// Reads a position from a FEN string. Fails with the error of the
    /// first field, in order, that is not valid.
    pub fn from_fen(fen: &str) -> (r: Result<Self, FenError>)
        requires
            !fen_overflows(fen@),
        ensures
            match r {
                Ok(b) => fen_error(fen@) is None && fen_board(fen@, b),
                Err(e) => fen_error(fen@) == Some(e),
            },
    {
        let chars = str_chars(fen);
        let fields = split_whitespace(&chars);
        let ghost f = words(fen@);
        if fields.len() != 6 {
            return Err(FenError::InvalidFieldCount);
        }
        proof {
            lemma_nested_view(fields, 0);
            lemma_nested_view(fields, 1);
            lemma_nested_view(fields, 2);
            lemma_nested_view(fields, 3);
            lemma_nested_view(fields, 4);
            lemma_nested_view(fields, 5);
        }
        let placement = &fields[0];
        let side = &fields[1];
        let castling = &fields[2];
        let ep = &fields[3];
        let halfmove = &fields[4];
        let fullmove = &fields[5];
        let mut board = Board::default();
        match parse_piece_placement(&mut board, placement) {
            Ok(()) => {},
            Err(e) => {
                return Err(e);
            },
        }
        let ghost placed_board = board;
        match parse_side_to_move(&mut board, side) {
            Ok(()) => {},
            Err(e) => {
                return Err(e);
            },
        }
        match parse_castling(&mut board, castling) {
            Ok(()) => {},
            Err(e) => {
                return Err(e);
            },
        }
        match parse_en_passant(&mut board, ep) {
            Ok(()) => {},
            Err(e) => {
                return Err(e);
            },
        }
        board.halfmove_clock = match parse_unsigned_max(halfmove, 255) {
            Some(v) => v as u8,
            None => {
                return Err(FenError::InvalidHalfmoveClock);
            },
        };
        board.fullmove_number = match parse_unsigned_max(fullmove, 65535) {
            Some(v) => v as u16,
            None => {
                return Err(FenError::InvalidFullmoveNumber);
            },
        };
        proof {
            assert forall|s: int| 0 <= s < 64 implies #[trigger] board_holds(board, s, filled_cell(parse_placement(f[0])->Ok_0, seq![], s)) by {
                assert(board_holds(placed_board, s, filled_cell(parse_placement(f[0])->Ok_0, seq![], s)));
            }
        }
        Ok(board)
    }

    /// The mailbox code of `square`.
    fn mailbox_at(&self, square: Square) -> (r: u8)
        requires
            square.0 < 64,
        ensures
            r == self.mailbox[square.0 as int],
    {
        self.mailbox[square.to_index()]
    }
}

/// A board read from FEN is consistent.
pub proof fn lemma_fen_board_consistent(fen: Seq<char>, b: Board)
    requires
        fen_board(fen, b),
    ensures
        consistent(b),
{
    let cells = parse_placement(words(fen)[0])->Ok_0;
    assert forall|s: int| 0 <= s < 64 implies #[trigger] square_consistent(b, s) by {
        assert(board_holds(b, s, filled_cell(cells, seq![], s)));
        let cell = filled_cell(cells, seq![], s);
        match cell {
            Some((p, c)) => {
                lemma_mailbox_code_roundtrip(p, c);
            },
            None => {},
        }
    }
}

/// The FEN letter for a mailbox value, if it holds a piece.
pub open spec fn mailbox_fen_char(m: u8) -> Option<char> {
    match mailbox_content(m) {
        None => None,
        Some((p, c)) => Some(fen_char(p, c)),
    }
}

/// The digits of a run of `n` empty squares; nothing when `n` is 0.
pub open spec fn empty_run(n: nat) -> Seq<char> {
    if n > 0 {
        decimal(n)
    } else {
        seq![]
    }
}

/// FEN text of files `f` to h of `rank`, after a run of `empty` empty
/// squares: each piece by its letter, each run of empty squares by its
/// length.
pub open spec fn rank_text_from(b: Board, rank: int, f: int, empty: nat) -> Seq<char>
    decreases 8 - f,
{
    if f >= 8 {
        empty_run(empty)
    } else {
        match mailbox_fen_char(b.mailbox[rank * 8 + f]) {
            Some(ch) => empty_run(empty) + seq![ch] + rank_text_from(b, rank, f + 1, 0),
            None => rank_text_from(b, rank, f + 1, empty + 1),
        }
    }
}

/// FEN text of one rank.
pub open spec fn rank_text(b: Board, rank: int) -> Seq<char> {
    rank_text_from(b, rank, 0, 0)
}

/// FEN text of ranks `r` down to 1, separated by `/`.
pub open spec fn placement_text(b: Board, r: int) -> Seq<char>
    decreases r,
{
    if r <= 0 {
        rank_text(b, 0)
    } else {
        rank_text(b, r) + seq!['/'] + placement_text(b, r - 1)
    }
}

/// FEN text of castling rights: `-` for none, else the letters of the
/// rights held, in the order K, Q, k, q.
pub open spec fn castling_text(c: u8) -> Seq<char> {
    if c == 0 {
        seq!['-']
    } else {
        (if c & CASTLE_WHITE_KINGSIDE != 0 { seq!['K'] } else { seq![] }) + (if c
            & CASTLE_WHITE_QUEENSIDE != 0 {
            seq!['Q']
        } else {
            seq![]
        }) + (if c & CASTLE_BLACK_KINGSIDE != 0 { seq!['k'] } else { seq![] }) + (if c
            & CASTLE_BLACK_QUEENSIDE != 0 {
            seq!['q']
        } else {
            seq![]
        })
    }
}

/// FEN text of the en-passant square: its file letter and rank digit when
/// it lies on rank 3 or 6, `-` otherwise.
pub open spec fn ep_text(sq: Square) -> Seq<char> {
    if sq.0 < 64 && (rank_of(sq.0 as int) == 2 || rank_of(sq.0 as int) == 5) {
        seq![(97 + file_of(sq.0 as int)) as char, if rank_of(sq.0 as int) == 2 { '3' } else { '6' }]
    } else {
        seq!['-']
    }
}

/// The FEN text of a board.
pub open spec fn fen_text(b: Board) -> Seq<char> {
    placement_text(b, 7) + seq![' '] + seq![if b.white_to_move { 'w' } else { 'b' }] + seq![' ']
        + castling_text(b.castling) + seq![' '] + ep_text(b.ep_square) + seq![' '] + decimal(
        b.halfmove_clock as nat,
    ) + seq![' '] + decimal(b.fullmove_number as nat)
}

/// The FEN letter for a mailbox value, if it holds a piece.
fn mailbox_to_fen_char(m: u8) -> (r: Option<char>)
    ensures
        r == mailbox_fen_char(m),
{
    if m == EMPTY_MAILBOX {
        return None;
    }
    let (piece, color) = match mailbox_to_color_and_piece(m) {
        Some(pc) => pc,
        None => {
            return None;
        },
    };
    Some(piece_and_color_to_fen_piece(piece, color))
}

impl Board {
    /// Appends the FEN text of `rank` to `out`.
    fn encode_rank(&self, rank: u8, out: &mut String)
        requires
            rank < 8,
        ensures
            final(out)@ == old(out)@ + rank_text(*self, rank as int),
    {
        let mut empty: u32 = 0;
        let mut file: u8 = 0;
        while file < 8
            invariant
                rank < 8,
                file <= 8,
                empty <= file,
                old(out)@ + rank_text(*self, rank as int) == out@ + rank_text_from(
                    *self,
                    rank as int,
                    file as int,
                    empty as nat,
                ),
            decreases 8 - file,
        {
            let square = Square::from_rank_file(rank, file);
            let m = self.mailbox_at(square);
            let ghost before = out@;
            let ghost e0 = empty as nat;
            if let Some(ch) = mailbox_to_fen_char(m) {
                if empty > 0 {
                    push_decimal(out, empty);
                    empty = 0;
                }
                push_char(out, ch);
                proof {
                    assert(out@ + rank_text_from(*self, rank as int, file + 1, 0) =~= before
                        + rank_text_from(*self, rank as int, file as int, e0));
                }
            } else {
                empty += 1;
            }
            file += 1;
        }
        if empty > 0 {
            push_decimal(out, empty);
        }
        proof {
            assert(out@ =~= old(out)@ + rank_text(*self, rank as int));
        }
    }
}

impl Board {
    /// The FEN text of the board (ranks 8 down to 1, side to move, castling
    /// rights, en-passant square, half-move clock, full-move number).
    pub fn to_string(&self) -> (r: String)
        ensures
            r@ == fen_text(*self),
    {
        let mut out = String::new();
        // piece placement
        let mut rank: u8 = 8;
        while rank > 0
            invariant
                rank <= 8,
                placement_text(*self, 7) == out@ + (if rank > 0 {
                    placement_text(*self, rank - 1)
                } else {
                    seq![]
                }),
            decreases rank,
        {
            rank -= 1;
            let ghost before = out@;
            self.encode_rank(rank, &mut out);
            if rank != 0 {
                push_char(&mut out, '/');
                proof {
                    assert(before + placement_text(*self, rank as int) =~= out@ + placement_text(*self, rank - 1));
                }
            } else {
                proof {
                    assert(before + placement_text(*self, rank as int) =~= out@ + seq![]);
                }
            }
        }
        push_char(&mut out, ' ');
        let ghost after_placement = out@;
        // side to move
        let stm = if self.white_to_move {
            'w'
        } else {
            'b'
        };
        push_char(&mut out, stm);
        push_char(&mut out, ' ');
        // castling
        let ghost before_castling = out@;
        push_castling(&mut out, self.castling);
        push_char(&mut out, ' ');
        // en passant
        let ghost before_ep = out@;
        push_en_passant_text(&mut out, self.ep_square);
        let ghost before_clock = out@;
        // half/full move
        push_decimal(&mut out, self.halfmove_clock as u32);
        push_char(&mut out, ' ');
        push_decimal(&mut out, self.fullmove_number as u32);
        proof {
            assert(before_castling =~= placement_text(*self, 7) + seq![' '] + seq![stm] + seq![' ']);
            assert(before_ep =~= before_castling + castling_text(self.castling) + seq![' ']);
            assert(before_clock =~= before_ep + ep_text(self.ep_square) + seq![' ']);
            assert(out@ =~= fen_text(*self));
        }
        out
    }
}

/// Appends the FEN text of castling rights `c`.
fn push_castling(out: &mut String, c: u8)
    ensures
        final(out)@ == old(out)@ + castling_text(c),
{
    if c == 0 {
        push_char(out, '-');
    } else {
        if c & CASTLE_WHITE_KINGSIDE != 0 {
            push_char(out, 'K');
        }
        if c & CASTLE_WHITE_QUEENSIDE != 0 {
            push_char(out, 'Q');
        }
        if c & CASTLE_BLACK_KINGSIDE != 0 {
            push_char(out, 'k');
        }
        if c & CASTLE_BLACK_QUEENSIDE != 0 {
            push_char(out, 'q');
        }
    }
    proof {
        assert(out@ =~= old(out)@ + castling_text(c));
    }
}

/// Appends the FEN text of the en-passant square, then a space.
fn push_en_passant_text(out: &mut String, ep_square: Square)
    ensures
        final(out)@ == old(out)@ + ep_text(ep_square) + seq![' '],
{
    if ep_square.is_on_board() {
        let file = ep_square.file();
        let rank = ep_square.rank();
        let file_char = (97u8 + file) as char;
        let rank_char = match rank {
            2 => '3',
            5 => '6',
            _ => '-',
        };
        if rank_char == '-' {
            push_char(out, '-');
            push_char(out, ' ');
        } else {
            push_char(out, file_char);
            push_char(out, rank_char);
            push_char(out, ' ');
        }
    } else {
        push_char(out, '-');
        push_char(out, ' ');
    }
    proof {
        assert(out@ =~= old(out)@ + ep_text(ep_square) + seq![' ']);
    }
}

/// Whether reading `fen` would reach a ninth rank of its placement field.
fn fen_overflows_check(fen: &str) -> (r: bool)
    ensures
        r == fen_overflows(fen@),
{
    let chars = str_chars(fen);
    let fields = split_whitespace(&chars);
    if fields.len() != 6 {
        return false;
    }
    proof {
        lemma_nested_view(fields, 0);
    }
    let ranks = split_char(&fields[0], '/');
    let ghost rs = placement_ranks(fields[0]@);
    if ranks.len() <= 8 {
        return false;
    }
    let mut i: usize = 0;
    while i < 8
        invariant
            i <= 8,
            8 < ranks.len(),
            ranks.deep_view() == rs,
            rs == placement_ranks(fields[0]@),
            fields.len() == 6,
            fields[0]@ == words(fen@)[0],
            words(fen@).len() == 6,
            parse_ranks(rs, i as int) is Ok,
        decreases 8 - i,
    {
        proof {
            lemma_nested_view(ranks, i as int);
        }
        match parse_rank(&ranks[i]) {
            Ok(_) => {},
            Err(e) => {
                proof {
                    assert(ranks[i as int]@ == rs[i as int]);
                    assert(parse_rank_spec(rs[i as int]) == Err::<Seq<Cell>, FenError>(e));
                    assert(parse_ranks(rs, i + 1) == Err::<Seq<Seq<Cell>>, FenError>(e));
                    lemma_parse_ranks_err(rs, i + 1, 8, e);
                    assert(!placement_overflows(fields[0]@));
                }
                return false;
            },
        }
        i += 1;
    }
    true
}

impl std::str::FromStr for Board {
    type Err = FenError;

    /// Reads a position from a FEN string, as `Board::from_fen` does. A
    /// placement field with more than eight ranks, whose first eight are
    /// valid, is refused with `InvalidBoard`.
    fn from_str(s: &str) -> (r: Result<Self, FenError>)
        ensures
            fen_overflows(s@) ==> r == Err::<Board, FenError>(FenError::InvalidBoard),
            !fen_overflows(s@) ==> match r {
                Ok(b) => fen_error(s@) is None && fen_board(s@, b),
                Err(e) => fen_error(s@) == Some(e),
            },
    {
        if fen_overflows_check(s) {
            return Err(FenError::InvalidBoard);
        }
        Board::from_fen(s)
    }
}

} // verus!