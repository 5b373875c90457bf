//! A figure packed into one byte: rank in bits 0..2, the has-not-moved flag
//! in bit 4, color in bits 6..7.

use vstd::prelude::*;

verus! {

#[derive(Clone, Copy, Debug, PartialEq, Eq, Structural)]
pub enum Rank {
    NONE,
    KING,
    QUEEN,
    ROOK,
    BISHOP,
    KNIGHT,
    PAWN,
    OUT,
}

#[derive(Clone, Copy, Debug, PartialEq, Eq, Structural)]
pub enum Color {
    NONE,
    WHITE,
    BLACK,
    WHITEBLACK,
}

pub const W_PAWN: i32 = 1000;
pub const W_BISHOP: i32 = 4 * W_PAWN;
pub const W_KNIGHT: i32 = 3 * W_PAWN;
pub const W_ROOK: i32 = 5 * W_PAWN;
pub const W_QUEEN: i32 = 9 * W_PAWN;
pub const W_INFINITY: i32 = 10 * W_QUEEN;
pub const W_KING: i32 = W_INFINITY;

pub open spec fn rank_code(r: Rank) -> u8 {
    match r {
        Rank::NONE => 0,
        Rank::KING => 1,
        Rank::QUEEN => 2,
        Rank::ROOK => 3,
        Rank::BISHOP => 4,
        Rank::KNIGHT => 5,
        Rank::PAWN => 6,
        Rank::OUT => 7,
    }
}

pub open spec fn rank_from_code(c: u8) -> Rank {
    if c == 0 {
        Rank::NONE
    } else if c == 1 {
        Rank::KING
    } else if c == 2 {
        Rank::QUEEN
    } else if c == 3 {
        Rank::ROOK
    } else if c == 4 {
        Rank::BISHOP
    } else if c == 5 {
        Rank::KNIGHT
    } else if c == 6 {
        Rank::PAWN
    } else {
        Rank::OUT
    }
}

pub open spec fn color_code(c: Color) -> u8 {
    match c {
        Color::NONE => 0,
        Color::WHITE => 64,
        Color::BLACK => 128,
        Color::WHITEBLACK => 192,
    }
}

pub open spec fn color_from_code(c: u8) -> Color {
    if c == 0 {
        Color::NONE
    } else if c == 64 {
        Color::WHITE
    } else if c == 128 {
        Color::BLACK
    } else {
        Color::WHITEBLACK
    }
}

/// Material weight of a rank; empty and off-board cells weigh nothing.
pub open spec fn rank_weight(r: Rank) -> int {
    match r {
        Rank::NONE => 0,
        Rank::KING => 90000,
        Rank::QUEEN => 9000,
        Rank::ROOK => 5000,
        Rank::BISHOP => 4000,
        Rank::KNIGHT => 3000,
        Rank::PAWN => 1000,
        Rank::OUT => 0,
    }
}

/// The other side; `NONE` and `WHITEBLACK` swap too, as the bits do.
pub open spec fn inverted(c: Color) -> Color {
    match c {
        Color::NONE => Color::WHITEBLACK,
        Color::WHITE => Color::BLACK,
        Color::BLACK => Color::WHITE,
        Color::WHITEBLACK => Color::NONE,
    }
}

/// A side that can own figures.
pub open spec fn is_side(c: Color) -> bool {
    c == Color::WHITE || c == Color::BLACK
}

impl Color {
    /// Exchanges the white and black bits.
    pub fn invert(self) -> (r: Color)
        ensures
            r == inverted(self),
    {
        match self {
            Color::NONE => Color::WHITEBLACK,
            Color::WHITE => Color::BLACK,
            Color::BLACK => Color::WHITE,
            Color::WHITEBLACK => Color::NONE,
        }
    }

    /// The color's byte value: 0, 64, 128 or 192.
    pub fn code(self) -> (r: u8)
        ensures
            r == color_code(self),
    {
        match self {
            Color::NONE => 0,
            Color::WHITE => 64,
            Color::BLACK => 128,
            Color::WHITEBLACK => 192,
        }
    }
}

impl Rank {
    pub fn code(self) -> (r: u8)
        ensures
            r == rank_code(self),
    {
        match self {
            Rank::NONE => 0,
            Rank::KING => 1,
            Rank::QUEEN => 2,
            Rank::ROOK => 3,
            Rank::BISHOP => 4,
            Rank::KNIGHT => 5,
            Rank::PAWN => 6,
            Rank::OUT => 7,
        }
    }
}

#[derive(Clone, Copy, Debug, PartialEq, Eq, Hash, Default, Structural)]
pub struct Figure(pub u8);

/// `rank | color | flag << 4`; the three fields occupy disjoint bits.
pub open spec fn figure_of(r: Rank, c: Color, flag: bool) -> Figure {
    Figure((rank_code(r) + color_code(c) + (if flag { 16u8 } else { 0u8 })) as u8)
}

/// The packed fields read back as they were given.
pub proof fn lemma_figure_of(r: Rank, c: Color, flag: bool)
    ensures
        figure_of(r, c, flag).rank_of() == r,
        figure_of(r, c, flag).color_of() == c,
        figure_of(r, c, flag).flag_of() == flag,
{
}

proof fn lemma_masks(b: u8)
    ensures
        b & 7 == b % 8,
        b & 192 == (b / 64) * 64,
        (b & 16 == 16) == ((b / 16) % 2 == 1),
{
    assert(b & 7 == b % 8) by (bit_vector);
    assert(b & 192 == (b / 64) * 64) by (bit_vector);
    assert((b & 16 == 16) == ((b / 16) % 2 == 1)) by (bit_vector);
}

impl Figure {
    pub open spec fn rank_of(self) -> Rank {
        rank_from_code(self.0 % 8)
    }

    pub open spec fn color_of(self) -> Color {
        color_from_code(((self.0 / 64) * 64) as u8)
    }

    pub open spec fn flag_of(self) -> bool {
        (self.0 / 16) % 2 == 1
    }

    pub open spec fn weight_of(self) -> int {
        rank_weight(self.rank_of())
    }

    pub fn new(rank: Rank, color: Color, flag: bool) -> (r: Figure)
        ensures
            r == figure_of(rank, color, flag),
            r.rank_of() == rank,
            r.color_of() == color,
            r.flag_of() == flag,
    {
        let f: u8 = if flag { 16 } else { 0 };
        Figure(rank.code() + color.code() + f)
    }

    pub fn empty() -> (r: Figure)
        ensures
            r == figure_of(Rank::NONE, Color::NONE, false),
            r.rank_of() == Rank::NONE,
            r.color_of() == Color::NONE,
            !r.flag_of(),
    {
        Figure::new(Rank::NONE, Color::NONE, false)
    }

    pub fn rank(&self) -> (r: Rank)
        ensures
            r == self.rank_of(),
    {
        proof {
            lemma_masks(self.0);
        }
        match self.0 & 7 {
            0 => Rank::NONE,
            1 => Rank::KING,
            2 => Rank::QUEEN,
            3 => Rank::ROOK,
            4 => Rank::BISHOP,
            5 => Rank::KNIGHT,
            6 => Rank::PAWN,
            _ => Rank::OUT,
        }
    }

    pub fn color(&self) -> (r: Color)
        ensures
            r == self.color_of(),
    {
        proof {
            lemma_masks(self.0);
        }
        match self.0 & 192 {
            0 => Color::NONE,
            64 => Color::WHITE,
            128 => Color::BLACK,
            _ => Color::WHITEBLACK,
        }
    }

    pub fn weight(&self) -> (r: i32)
        ensures
            r as int == self.weight_of(),
    {
        match self.rank() {
            Rank::NONE => 0,
            Rank::KING => W_KING,
            Rank::QUEEN => W_QUEEN,
            Rank::ROOK => W_ROOK,
            Rank::BISHOP => W_BISHOP,
            Rank::KNIGHT => W_KNIGHT,
            Rank::PAWN => W_PAWN,
            Rank::OUT => 0,
        }
    }

    pub fn is_flag_set(&self) -> (r: bool)
        ensures
            r == self.flag_of(),
    {
        proof {
            lemma_masks(self.0);
        }
        (self.0 & 16) == 16
    }

    /// The same figure with the flag set; rank and color are kept.
    pub fn set_flag(&self) -> (r: Figure)
        ensures
            r.flag_of(),
            r.rank_of() == self.rank_of(),
            r.color_of() == self.color_of(),
    {
        let b = self.0;
        assert((b | 16) & 16 == 16 && (b | 16) & 7 == b & 7 && (b | 16) & 192 == b & 192)
            by (bit_vector);
        proof {
            lemma_masks(b);
            lemma_masks(b | 16);
        }
        Figure(b | 16)
    }
}

} // verus!
