use vstd::prelude::*;
use crate::colors::{ansi_wrapped, paint_blue, paint_bright_black, paint_yellow};
use crate::text::string_from_chars;

verus! {

/// Number of files of the double board (two 8x8 boards side by side).
pub const WIDTH: usize = 8 + 8;
/// Number of ranks of the board.
pub const HEIGHT: usize = 8;

pub const WHITE: u8 = 1;
pub const BLACK: u8 = 2;
pub const KING: u8 = 4;
pub const QUEEN: u8 = 8;
pub const ROOK: u8 = 16;
pub const BISHOP: u8 = 32;
pub const KNIGHT: u8 = 64;
pub const PAWN: u8 = 128;

/// A board cell or a piece to place: a set of flag bits (colour and kind),
/// `0` meaning an empty cell.
#[derive(Copy, Clone, Debug, PartialEq, Eq, Structural, Hash)]
pub struct Piece(pub u8);

/// Each flag bit of a byte, as arithmetic on the byte.
pub proof fn lemma_flag_bits(p: u8)
    by (bit_vector)
    ensures
        (p & 1u8 != 0) == (p % 2 == 1),
        (p & 2u8 != 0) == ((p / 2) % 2 == 1),
        (p & 4u8 != 0) == ((p / 4) % 2 == 1),
        (p & 8u8 != 0) == ((p / 8) % 2 == 1),
        (p & 16u8 != 0) == ((p / 16) % 2 == 1),
        (p & 32u8 != 0) == ((p / 32) % 2 == 1),
        (p & 64u8 != 0) == ((p / 64) % 2 == 1),
        (p & 128u8 != 0) == ((p / 128) % 2 == 1),
        (p & 252u8 != 0) == (p >= 4),
        1u8 | 4u8 == 5u8,
        1u8 | 8u8 == 9u8,
        1u8 | 16u8 == 17u8,
        1u8 | 32u8 == 33u8,
        1u8 | 64u8 == 65u8,
        1u8 | 128u8 == 129u8,
        2u8 | 4u8 == 6u8,
        2u8 | 8u8 == 10u8,
        2u8 | 16u8 == 18u8,
        2u8 | 32u8 == 34u8,
        2u8 | 64u8 == 66u8,
        2u8 | 128u8 == 130u8,
{
}

/// A piece has a value, is not empty, and has exactly one colour.
pub proof fn lemma_piece_facts(p: Piece)
    requires
        p.is_piece(),
    ensures
        p.has_value(),
        !p.empty(),
        (p.0 & WHITE != 0) != (p.0 & BLACK != 0),
{
    lemma_flag_bits(p.0);
}

/// An empty cell or a piece has a value.
pub proof fn lemma_well_formed_value(p: Piece)
    requires
        p.well_formed(),
    ensures
        p.has_value(),
        p.empty() ==> p.0 & WHITE == 0 && p.0 & BLACK == 0,
{
    lemma_flag_bits(p.0);
}

/// The byte of the piece that a FEN letter stands for, `0` for any other character.
pub open spec fn fen_code(c: char) -> u8 {
    if c == 'K' { 5 }
    else if c == 'Q' { 9 }
    else if c == 'R' { 17 }
    else if c == 'B' { 33 }
    else if c == 'N' { 65 }
    else if c == 'P' { 129 }
    else if c == 'k' { 6 }
    else if c == 'q' { 10 }
    else if c == 'r' { 18 }
    else if c == 'b' { 34 }
    else if c == 'n' { 66 }
    else if c == 'p' { 130 }
    else { 0 }
}

/// Whether `c` is one of the twelve FEN piece letters.
pub open spec fn is_fen_piece_char(c: char) -> bool {
    fen_code(c) != 0
}

/// The byte is one of the twelve pieces (a colour and a kind).
pub open spec fn is_piece_code(p: u8) -> bool {
    p == 5 || p == 9 || p == 17 || p == 33 || p == 65 || p == 129
    || p == 6 || p == 10 || p == 18 || p == 34 || p == 66 || p == 130
}

/// The FEN letter of a piece byte (meaningful for the twelve pieces).
pub open spec fn fen_char_of(p: u8) -> char {
    if p == 5 { 'K' }
    else if p == 9 { 'Q' }
    else if p == 17 { 'R' }
    else if p == 33 { 'B' }
    else if p == 65 { 'N' }
    else if p == 129 { 'P' }
    else if p == 6 { 'k' }
    else if p == 10 { 'q' }
    else if p == 18 { 'r' }
    else if p == 34 { 'b' }
    else if p == 66 { 'n' }
    else { 'p' }
}

/// The board glyph of a cell byte (meaningful for `0` and the twelve pieces).
pub open spec fn glyph_of(p: u8) -> char {
    if p == 0 { '·' }
    else if p == 5 { '♚' }
    else if p == 9 { '♛' }
    else if p == 17 { '♜' }
    else if p == 33 { '♝' }
    else if p == 65 { '♞' }
    else if p == 129 { '♟' }
    else if p == 6 { '♔' }
    else if p == 10 { '♕' }
    else if p == 18 { '♖' }
    else if p == 34 { '♗' }
    else if p == 66 { '♘' }
    else { '♙' }
}

/// Material value of a cell byte: the first kind flag found, in the order
/// king, queen, rook, bishop, knight, pawn, decides it.
pub open spec fn value_of(p: u8) -> nat {
    if p & KING != 0 { 0 }
    else if p & QUEEN != 0 { 9 }
    else if p & ROOK != 0 { 5 }
    else if p & BISHOP != 0 { 3 }
    else if p & KNIGHT != 0 { 3 }
    else if p & PAWN != 0 { 1 }
    else { 0 }
}

/// The colour code with which `format` may paint a cell: bright black for
/// an empty cell, yellow for white, blue for black.
pub open spec fn colour_code(p: u8) -> Seq<char> {
    if p == 0 { seq!['9', '0'] }
    else if p & WHITE != 0 { seq!['3', '3'] }
    else { seq!['3', '4'] }
}

/// What `format` may give for a cell: its glyph alone, or its glyph painted
/// with the cell's colour code (whether colour is on is decided by `colored`).
pub open spec fn formatted(p: u8, res: Seq<char>) -> bool {
    res == seq![glyph_of(p)] || res == ansi_wrapped(colour_code(p), seq![glyph_of(p)])
}

impl Piece {
    /// The cell holds nothing.
    pub open spec fn empty(self) -> bool {
        self.0 == 0
    }

    /// The piece is one of the twelve pieces of the game.
    pub open spec fn is_piece(self) -> bool {
        is_piece_code(self.0)
    }

    /// The byte is an empty cell or one of the twelve pieces.
    pub open spec fn well_formed(self) -> bool {
        self.0 == 0 || is_piece_code(self.0)
    }

    /// `value` is defined: the cell is empty or carries some kind flag.
    pub open spec fn has_value(self) -> bool {
        self.0 == 0 || self.0 & 252u8 != 0
    }

    pub open spec fn spec_value(self) -> nat {
        value_of(self.0)
    }

    /// Reads a FEN piece letter.
    pub fn from_fen(p: char) -> (res: Piece)
        requires
            is_fen_piece_char(p),
        ensures
            res.0 == fen_code(p),
            res.is_piece(),
    {
        proof { lemma_flag_bits(0); }
        Piece(match p {
            'K' => WHITE | KING,
            'Q' => WHITE | QUEEN,
            'R' => WHITE | ROOK,
            'B' => WHITE | BISHOP,
            'N' => WHITE | KNIGHT,
            'P' => WHITE | PAWN,
            'k' => BLACK | KING,
            'q' => BLACK | QUEEN,
            'r' => BLACK | ROOK,
            'b' => BLACK | BISHOP,
            'n' => BLACK | KNIGHT,
            _ => BLACK | PAWN,
        })
    }

    /// The FEN letter of the piece, `None` for an empty cell.
    pub fn to_fen(self) -> (res: Option<char>)
        requires
            self.well_formed(),
        ensures
            self.0 == 0 ==> res == None::<char>,
            self.0 != 0 ==> res == Some(fen_char_of(self.0)),
    {
        proof { lemma_flag_bits(0); }
        if self.0 == 0 {
            None
        } else if self.0 == WHITE | KING {
            Some('K')
        } else if self.0 == WHITE | QUEEN {
            Some('Q')
        } else if self.0 == WHITE | ROOK {
            Some('R')
        } else if self.0 == WHITE | BISHOP {
            Some('B')
        } else if self.0 == WHITE | KNIGHT {
            Some('N')
        } else if self.0 == WHITE | PAWN {
            Some('P')
        } else if self.0 == BLACK | KING {
            Some('k')
        } else if self.0 == BLACK | QUEEN {
            Some('q')
        } else if self.0 == BLACK | ROOK {
            Some('r')
        } else if self.0 == BLACK | BISHOP {
            Some('b')
        } else if self.0 == BLACK | KNIGHT {
            Some('n')
        } else {
            Some('p')
        }
    }

    /// The cell holds no piece.
    pub fn is_empty(self) -> (res: bool)
        ensures
            res == self.empty(),
    {
        self.0 == 0
    }

    /// Material value: king 0, queen 9, rook 5, bishop and knight 3, pawn 1,
    /// empty cell 0.
    pub fn value(self) -> (res: usize)
        requires
            self.has_value(),
        ensures
            res == self.spec_value(),
    {
        if self.0 & KING > 0 {
            0
        } else if self.0 & QUEEN > 0 {
            9
        } else if self.0 & ROOK > 0 {
            5
        } else if self.0 & BISHOP > 0 {
            3
        } else if self.0 & KNIGHT > 0 {
            3
        } else if self.0 & PAWN > 0 {
            1
        } else {
            0
        }
    }

    /// The board glyph of the cell.
    pub fn char(self) -> (res: char)
        requires
            self.well_formed(),
        ensures
            res == glyph_of(self.0),
    {
        proof { lemma_flag_bits(0); }
        if self.0 == 0 {
            '·'
        } else if self.0 == WHITE | KING {
            '♚'
        } else if self.0 == WHITE | QUEEN {
            '♛'
        } else if self.0 == WHITE | ROOK {
            '♜'
        } else if self.0 == WHITE | BISHOP {
            '♝'
        } else if self.0 == WHITE | KNIGHT {
            '♞'
        } else if self.0 == WHITE | PAWN {
            '♟'
        } else if self.0 == BLACK | KING {
            '♔'
        } else if self.0 == BLACK | QUEEN {
            '♕'
        } else if self.0 == BLACK | ROOK {
            '♖'
        } else if self.0 == BLACK | BISHOP {
            '♗'
        } else if self.0 == BLACK | KNIGHT {
            '♘'
        } else {
            '♙'
        }
    }

    /// The glyph of the cell, painted by `colored`: bright black when empty,
    /// yellow for white, blue for black.
    pub fn format(self) -> (res: String)
        requires
            self.well_formed(),
        ensures
            formatted(self.0, res@),
    {
        proof { lemma_flag_bits(self.0); }
        let glyph = vec![self.char()];
        let c = string_from_chars(&glyph);
        assert(c@ =~= seq![glyph_of(self.0)]);
        assert(!c@.contains('\u{1b}'));
        if self.0 == 0 {
            paint_bright_black(c.as_str())
        } else if self.0 & WHITE > 0 {
            paint_yellow(c.as_str())
        } else {
            paint_blue(c.as_str())
        }
    }
}

impl Default for Piece {
    /// The empty cell.
    fn default() -> (res: Piece)
        ensures
            res.0 == 0,
    {
        Piece(0)
    }
}

impl From<u8> for Piece {
    /// The piece with the given flag bits.
    fn from(p: u8) -> (res: Piece) {
        Piece(p)
    }
}

impl vstd::std_specs::convert::FromSpecImpl<u8> for Piece {
    open spec fn obeys_from_spec() -> bool {
        true
    }

    open spec fn from_spec(p: u8) -> Piece {
        Piece(p)
    }
}

} // verus!
