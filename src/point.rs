//! Signed board coordinates and their two-character textual form.

use vstd::prelude::*;

verus! {

/// A file/rank coordinate. File 0 is `A`, rank 0 is `1`. Values outside
/// `0..8` are valid; they only become off-board when looked up on a board.
#[derive(Clone, Copy, Debug, PartialEq, Eq, Hash, Default, Structural)]
pub struct Point {
    pub x: i8,
    pub y: i8,
}

/// Error returned by the textual parsers.
#[derive(Clone, Copy, Debug, PartialEq, Eq, Structural)]
pub struct ParseError;

/// The file character of a text square, in either case.
pub open spec fn is_file_char(c: char) -> bool {
    ('A' <= c && c <= 'H') || ('a' <= c && c <= 'h')
}

pub open spec fn is_rank_char(c: char) -> bool {
    '1' <= c && c <= '8'
}

/// Files print inverted: file 0 is `H`, file 7 is `A`.
pub open spec fn file_of_char(c: char) -> int {
    if c <= 'H' {
        'H' as int - c as int
    } else {
        'h' as int - c as int
    }
}

pub open spec fn rank_of_char(c: char) -> int {
    c as int - '1' as int
}

/// Whether a two-character text names a square, and which.
pub open spec fn parses_to(s: Seq<char>, p: Point) -> bool {
    &&& s.len() == 2
    &&& is_file_char(s[0])
    &&& is_rank_char(s[1])
    &&& p.x as int == file_of_char(s[0])
    &&& p.y as int == rank_of_char(s[1])
}

pub open spec fn is_square_text(s: Seq<char>) -> bool {
    s.len() == 2 && is_file_char(s[0]) && is_rank_char(s[1])
}

/// The difference of two character codes, both ASCII.
fn sub_char(a: char, b: char) -> (r: i8)
    requires
        (a as u32) < 128,
        (b as u32) < 128,
    ensures
        r as int == a as int - b as int,
{
    (a as u32 as i8) - (b as u32 as i8)
}

impl Point {
    pub open spec fn on_board(self) -> bool {
        0 <= self.x < 8 && 0 <= self.y < 8
    }

    pub open spec fn plus(self, dx: int, dy: int) -> Point {
        Point { x: (self.x + dx) as i8, y: (self.y + dy) as i8 }
    }

    pub fn new(x: i8, y: i8) -> (r: Point)
        ensures
            r.x == x,
            r.y == y,
    {
        Point { x, y }
    }

    pub fn x(&self) -> (r: i8)
        ensures
            r == self.x,
    {
        self.x
    }

    pub fn y(&self) -> (r: i8)
        ensures
            r == self.y,
    {
        self.y
    }

    /// Coordinate-wise sum.
    pub fn add(self, other: Point) -> (r: Point)
        requires
            i8::MIN <= self.x + other.x <= i8::MAX,
            i8::MIN <= self.y + other.y <= i8::MAX,
        ensures
            r.x == self.x + other.x,
            r.y == self.y + other.y,
    {
        Point { x: self.x + other.x, y: self.y + other.y }
    }

    /// Parses `[A-H][1-8]` (either case); file `H` is 0, rank `1` is 0.
    pub fn from_string(s: &str) -> (r: Result<Point, ParseError>)
        ensures
            r.is_ok() <==> is_square_text(s@),
            r matches Ok(p) ==> parses_to(s@, p),
    {
        let n = s.unicode_len();
        if n != 2 {
            return Err(ParseError);
        }
        let f = s.get_char(0);
        let k = s.get_char(1);
        let x: i8 = if 'A' <= f && f <= 'H' {
            sub_char('H', f)
        } else if 'a' <= f && f <= 'h' {
            sub_char('h', f)
        } else {
            return Err(ParseError);
        };
        if !('1' <= k && k <= '8') {
            return Err(ParseError);
        }
        let y: i8 = sub_char(k, '1');
        Ok(Point { x, y })
    }
}

} // verus!
