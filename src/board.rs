//! A 16x16 board whose inner 8x8 is playable; the 4-deep border holds `OUT`
//! cells so that move generation can read off the board without range checks.

use vstd::prelude::*;
use crate::figure::{Color, Figure, Rank, figure_of};
use crate::point::Point;

verus! {

/// Index of logical cell `(x, y)`, `x, y` in `-4..12`, in the flat array.
pub open spec fn cell_index(x: int, y: int) -> int {
    (x + 4) * 16 + (y + 4)
}

pub open spec fn in_band(x: int, y: int) -> bool {
    -4 <= x < 12 && -4 <= y < 12
}

pub open spec fn on_board(x: int, y: int) -> bool {
    0 <= x < 8 && 0 <= y < 8
}

pub open spec fn out_figure() -> Figure {
    figure_of(Rank::OUT, Color::NONE, false)
}

pub open spec fn empty_figure() -> Figure {
    figure_of(Rank::NONE, Color::NONE, false)
}

/// The standard initial position; bishops and kings carry the flag.
pub open spec fn initial_at(x: int, y: int) -> Figure {
    if !on_board(x, y) {
        out_figure()
    } else if y == 1 {
        figure_of(Rank::PAWN, Color::WHITE, false)
    } else if y == 6 {
        figure_of(Rank::PAWN, Color::BLACK, false)
    } else if y == 0 || y == 7 {
        let c = if y == 0 { Color::WHITE } else { Color::BLACK };
        if x == 0 || x == 7 {
            figure_of(Rank::ROOK, c, false)
        } else if x == 1 || x == 6 {
            figure_of(Rank::KNIGHT, c, false)
        } else if x == 2 || x == 5 {
            figure_of(Rank::BISHOP, c, true)
        } else if x == 4 {
            figure_of(Rank::QUEEN, c, false)
        } else {
            figure_of(Rank::KING, c, true)
        }
    } else {
        empty_figure()
    }
}

/// The figure that the initial position puts on a playable cell.
fn initial_cell(x: i8, y: i8) -> (r: Figure)
    requires
        on_board(x as int, y as int),
    ensures
        r == initial_at(x as int, y as int),
{
    if y == 1 {
        Figure::new(Rank::PAWN, Color::WHITE, false)
    } else if y == 6 {
        Figure::new(Rank::PAWN, Color::BLACK, false)
    } else if y == 0 || y == 7 {
        let c = if y == 0 { Color::WHITE } else { Color::BLACK };
        if x == 0 || x == 7 {
            Figure::new(Rank::ROOK, c, false)
        } else if x == 1 || x == 6 {
            Figure::new(Rank::KNIGHT, c, false)
        } else if x == 2 || x == 5 {
            Figure::new(Rank::BISHOP, c, true)
        } else if x == 4 {
            Figure::new(Rank::QUEEN, c, false)
        } else {
            Figure::new(Rank::KING, c, true)
        }
    } else {
        Figure::new(Rank::NONE, Color::NONE, false)
    }
}

#[derive(Clone, Copy, Debug, PartialEq, Eq)]
pub struct ByteBoard {
    /// Cell `(x, y)` is at `(x + 4) * 16 + (y + 4)`.
    pub cells: [Figure; 256],
}

impl ByteBoard {
    pub open spec fn at(self, x: int, y: int) -> Figure {
        self.cells@[cell_index(x, y)]
    }

    pub open spec fn at_point(self, p: Point) -> Figure {
        self.at(p.x as int, p.y as int)
    }

    /// Every border cell is `OUT`.
    pub open spec fn guarded(self) -> bool {
        forall|x: int, y: int|
            #![trigger self.at(x, y)]
            in_band(x, y) && !on_board(x, y) ==> self.at(x, y) == out_figure()
    }

    pub fn empty() -> (r: ByteBoard)
        ensures
            r.guarded(),
            forall|x: int, y: int| on_board(x, y) ==> #[trigger] r.at(x, y) == empty_figure(),
    {
        let mut board = ByteBoard { cells: [Figure::new(Rank::OUT, Color::NONE, false); 256] };
        let mut i: usize = 0;
        while i < 8
            invariant
                0 <= i <= 8,
                forall|k: int|
                    0 <= k < 256 ==> #[trigger] board.cells@[k] == (if 64 <= k && k < 192 && 4
                        <= k % 16 && k % 16 < 12 && k / 16 < i + 4 { empty_figure() } else {
                        out_figure()
                    }),
            decreases 8 - i,
        {
            let mut j: usize = 0;
            while j < 8
                invariant
                    0 <= i < 8,
                    0 <= j <= 8,
                    forall|k: int|
                        0 <= k < 256 ==> #[trigger] board.cells@[k] == (if 64 <= k && k < 192 && 4
                            <= k % 16 && k % 16 < 12 && (k / 16 < i + 4 || (k / 16 == i + 4
                            && k % 16 < j + 4)) { empty_figure() } else { out_figure() }),
                decreases 8 - j,
            {
                board.cells[(i + 4) * 16 + j + 4] = Figure::new(Rank::NONE, Color::NONE, false);
                j += 1;
            }
            i += 1;
        }
        assert forall|x: int, y: int| in_band(x, y) implies #[trigger] board.at(x, y) == (if on_board(
            x,
            y,
        ) { empty_figure() } else { out_figure() }) by {
            let k = cell_index(x, y);
            assert(k / 16 == x + 4 && k % 16 == y + 4);
        }
        board
    }

    pub fn cell(&self, literal: isize, number: isize) -> (r: &Figure)
        requires
            in_band(literal as int, number as int),
        ensures
            *r == self.at(literal as int, number as int),
    {
        &self.cells[((literal + 4) * 16 + number + 4) as usize]
    }

    pub fn cell_mut(&mut self, literal: isize, number: isize) -> (r: &mut Figure)
        requires
            in_band(literal as int, number as int),
        ensures
            *r == old(self).at(literal as int, number as int),
            final(self).cells@ == old(self).cells@.update(
                cell_index(literal as int, number as int),
                *final(r),
            ),
    {
        &mut self.cells[((literal + 4) * 16 + number + 4) as usize]
    }

    pub fn point_mut(&mut self, point: Point) -> (r: &mut Figure)
        requires
            in_band(point.x as int, point.y as int),
        ensures
            *r == old(self).at_point(point),
            final(self).cells@ == old(self).cells@.update(
                cell_index(point.x as int, point.y as int),
                *final(r),
            ),
    {
        self.cell_mut(point.x as isize, point.y as isize)
    }

    /// Writes one cell, guard band included.
    pub(crate) fn set_cell(&mut self, literal: isize, number: isize, f: Figure)
        requires
            in_band(literal as int, number as int),
        ensures
            final(self).cells@ == old(self).cells@.update(
                cell_index(literal as int, number as int),
                f,
            ),
    {
        self.cells[((literal + 4) * 16 + number + 4) as usize] = f;
    }

    pub fn point(&self, point: Point) -> (r: &Figure)
        requires
            in_band(point.x as int, point.y as int),
        ensures
            *r == self.at_point(point),
    {
        self.cell(point.x as isize, point.y as isize)
    }

    pub(crate) fn set_point(&mut self, point: Point, f: Figure)
        requires
            in_band(point.x as int, point.y as int),
        ensures
            final(self).cells@ == old(self).cells@.update(
                cell_index(point.x as int, point.y as int),
                f,
            ),
    {
        self.set_cell(point.x as isize, point.y as isize, f)
    }

    /// Exchanges the figures at two cells.
    pub fn swap(&mut self, p1: Point, p2: Point)
        requires
            in_band(p1.x as int, p1.y as int),
            in_band(p2.x as int, p2.y as int),
        ensures
            final(self).cells@ == old(self).cells@.update(
                cell_index(p1.x as int, p1.y as int),
                old(self).at_point(p2),
            ).update(cell_index(p2.x as int, p2.y as int), old(self).at_point(p1)),
    {
        let f = *self.point(p1);
        let g = *self.point(p2);
        self.set_point(p1, g);
        self.set_point(p2, f);
    }

    /// The playable cells with their points, `x`-major and `y`-minor.
    pub fn cell_iter(&self) -> (r: Vec<(Point, Figure)>)
        ensures
            r@.len() == 64,
            forall|i: int|
                0 <= i < 64 ==> #[trigger] r@[i] == (
                    Point { x: (i / 8) as i8, y: (i % 8) as i8 },
                    self.at(i / 8, i % 8),
                ),
    {
        let mut r: Vec<(Point, Figure)> = Vec::new();
        let mut x: i8 = 0;
        while x < 8
            invariant
                0 <= x <= 8,
                r@.len() == 8 * x,
                forall|i: int|
                    0 <= i < r@.len() ==> #[trigger] r@[i] == (
                        Point { x: (i / 8) as i8, y: (i % 8) as i8 },
                        self.at(i / 8, i % 8),
                    ),
            decreases 8 - x,
        {
            let mut y: i8 = 0;
            while y < 8
                invariant
                    0 <= x < 8,
                    0 <= y <= 8,
                    r@.len() == 8 * x + y,
                    forall|i: int|
                        0 <= i < r@.len() ==> #[trigger] r@[i] == (
                            Point { x: (i / 8) as i8, y: (i % 8) as i8 },
                            self.at(i / 8, i % 8),
                        ),
                decreases 8 - y,
            {
                let f = *self.cell(x as isize, y as isize);
                proof {
                    let i = 8 * x + y;
                    assert(i / 8 == x && i % 8 == y);
                }
                r.push((Point { x, y }, f));
                y += 1;
            }
            x += 1;
        }
        r
    }
}

impl Default for ByteBoard {
    /// The standard initial position.
    fn default() -> (r: ByteBoard)
        ensures
            r.guarded(),
            forall|x: int, y: int| on_board(x, y) ==> #[trigger] r.at(x, y) == initial_at(x, y),
    {
        let mut board = ByteBoard::empty();
        let mut i: i8 = 0;
        while i < 8
            invariant
                0 <= i <= 8,
                board.guarded(),
                forall|x: int, y: int|
                    on_board(x, y) && x < i ==> #[trigger] board.at(x, y) == initial_at(x, y),
            decreases 8 - i,
        {
            let mut j: i8 = 0;
            while j < 8
                invariant
                    0 <= i < 8,
                    0 <= j <= 8,
                    board.guarded(),
                    forall|x: int, y: int|
                        on_board(x, y) && (x < i || (x == i && y < j)) ==> #[trigger] board.at(
                            x,
                            y,
                        ) == initial_at(x, y),
                decreases 8 - j,
            {
                let f = initial_cell(i, j);
                let ghost before = board;
                board.set_cell(i as isize, j as isize, f);
                assert forall|x: int, y: int| in_band(x, y) && (x != i || y != j) implies #[trigger] board.at(
                    x,
                    y,
                ) == before.at(x, y) by {
                    assert(cell_index(x, y) != cell_index(i as int, j as int));
                }
                j += 1;
            }
            i += 1;
        }
        board
    }
}

} // verus!
