//! The controller: a board with both sides' indexes, the side to move, and
//! the make/unmake protocol that edits all three in place and reverts them
//! exactly.

use vstd::prelude::*;
use crate::board::{ByteBoard, cell_index, empty_figure, on_board};
use crate::figure::{Color, Figure, Rank, figure_of, inverted, is_side, lemma_figure_of};
use crate::figure_list::{
    FigurePointList,
    LinkedNodeCursor,
    ListView,
    NO_NODE,
    fill_order,
    lemma_relink,
    lemma_unlink,
    lemma_with_point,
};
use crate::movement::{
    Move,
    MoveGenerator,
    MoveList,
    MoveType,
    is_piece,
    list_moves,
    movable_at,
    piece_moves,
};
use crate::point::Point;
use vstd::array::spec_array_update;
use crate::generation::{lemma_piece_moves_sound, sound_move};

verus! {

/// An empty cell, or a piece of a side.
pub open spec fn valid_cell(f: Figure) -> bool {
    (f.color_of() == Color::NONE && f.rank_of() == Rank::NONE) || is_piece(f)
}

/// The border is `OUT` and every playable cell is valid.
pub open spec fn valid_board(b: ByteBoard) -> bool {
    &&& b.guarded()
    &&& forall|x: int, y: int| on_board(x, y) ==> valid_cell(#[trigger] b.at(x, y))
}

pub open spec fn on_board_point(p: Point) -> bool {
    on_board(p.x as int, p.y as int)
}

/// `l` lists every cell of color `c` exactly once, and nothing else.
pub open spec fn indexes(b: ByteBoard, l: ListView, c: Color) -> bool {
    let pts = l.points();
    &&& l.wf()
    &&& pts.no_duplicates()
    &&& forall|i: int|
        0 <= i < pts.len() ==> on_board_point(#[trigger] pts[i]) && b.at_point(pts[i]).color_of()
            == c
    &&& forall|x: int, y: int|
        on_board(x, y) && (#[trigger] b.at(x, y)).color_of() == c ==> pts.contains(
            Point { x: x as i8, y: y as i8 },
        )
}

/// The index of side `c` out of the pair (white, black).
pub open spec fn side_view(c: Color, w: ListView, b: ListView) -> ListView {
    if c == Color::WHITE {
        w
    } else {
        b
    }
}

/// Rewrites a point in the index of side `col`; other colors touch nothing.
pub open spec fn point_on(w: ListView, b: ListView, col: Color, c: LinkedNodeCursor, p: Point) -> (
    ListView,
    ListView,
) {
    if col == Color::WHITE {
        (w.with_point(c, p), b)
    } else if col == Color::BLACK {
        (w, b.with_point(c, p))
    } else {
        (w, b)
    }
}

pub open spec fn unlink_on(w: ListView, b: ListView, col: Color, c: LinkedNodeCursor) -> (
    ListView,
    ListView,
) {
    if col == Color::WHITE {
        (w.unlinked(c), b)
    } else if col == Color::BLACK {
        (w, b.unlinked(c))
    } else {
        (w, b)
    }
}

pub open spec fn relink_on(w: ListView, b: ListView, col: Color, c: LinkedNodeCursor) -> (
    ListView,
    ListView,
) {
    if col == Color::WHITE {
        (w.relinked(c), b)
    } else if col == Color::BLACK {
        (w, b.relinked(c))
    } else {
        (w, b)
    }
}

/// `relink` may be applied to `c` in `l`.
pub open spec fn relinkable(l: ListView, c: LinkedNodeCursor) -> bool {
    l.wf() && (c.cur == NO_NODE || l.linked(c) || l.detached(c))
}

pub open spec fn relinkable_on(w: ListView, b: ListView, col: Color, c: LinkedNodeCursor) -> bool {
    &&& col == Color::WHITE ==> relinkable(w, c)
    &&& col == Color::BLACK ==> relinkable(b, c)
}

/// What a square held before a move, and the link that named it.
#[derive(Clone, Copy, Debug)]
pub struct PointInfo {
    pub figure: Figure,
    pub point: Point,
    pub cursor: LinkedNodeCursor,
}

/// The board, both indexes and the side to move. `position_counter` counts
/// the leaves that a search evaluated.
pub struct BoardController {
    pub board: ByteBoard,
    pub white_list: FigurePointList,
    pub black_list: FigurePointList,
    pub friend_color: Color,
    pub enemy_color: Color,
    pub position_counter: i32,
}

/// The board and both indexes, between searches.
pub struct BoardDataHolder {
    pub board: ByteBoard,
    pub white_list: FigurePointList,
    pub black_list: FigurePointList,
}

/// A state (cells, white index, black index) after the steps of
/// `unmake_move(info)`: both links put back, both points and both figures
/// restored.
pub open spec fn undone_state(st: (Seq<Figure>, ListView, ListView), info: (PointInfo, PointInfo)) -> (
    Seq<Figure>,
    ListView,
    ListView,
) {
    let c0 = info.0.figure.color_of();
    let c1 = info.1.figure.color_of();
    let a = relink_on(st.1, st.2, c0, info.0.cursor);
    let b = relink_on(a.0, a.1, c1, info.1.cursor);
    let c = point_on(b.0, b.1, c0, info.0.cursor, info.0.point);
    let d = point_on(c.0, c.1, c1, info.1.cursor, info.1.point);
    (
        st.0.update(cell_index(info.0.point.x as int, info.0.point.y as int), info.0.figure).update(
            cell_index(info.1.point.x as int, info.1.point.y as int),
            info.1.figure,
        ),
        d.0,
        d.1,
    )
}

/// Takes back the moves that `infos` record, the last one first.
pub open spec fn unwind(st: (Seq<Figure>, ListView, ListView), infos: Seq<(PointInfo, PointInfo)>) -> (
    Seq<Figure>,
    ListView,
    ListView,
)
    decreases infos.len(),
{
    if infos.len() == 0 {
        st
    } else {
        unwind(undone_state(st, infos.last()), infos.drop_last())
    }
}

/// The cells after move `m` from `s`'s board.
pub open spec fn cells_after(cells: Seq<Figure>, m: Move) -> Seq<Figure> {
    let from = cell_index(m.from.x as int, m.from.y as int);
    let to = cell_index(m.to.x as int, m.to.y as int);
    match m.m_type {
        MoveType::SIMPLE => cells.update(to, cells[from]).update(from, empty_figure()),
        MoveType::SWAP => cells.update(from, cells[to]).update(to, cells[from]),
        MoveType::TRANSFORM => cells.update(from, empty_figure()).update(
            to,
            figure_of(Rank::QUEEN, cells[from].color_of(), false),
        ),
    }
}

impl BoardController {
    pub open spec fn list_view(self, c: Color) -> ListView {
        side_view(c, self.white_list@, self.black_list@)
    }

    pub open spec fn friend_view(self) -> ListView {
        self.list_view(self.friend_color)
    }

    pub open spec fn enemy_view(self) -> ListView {
        self.list_view(self.enemy_color)
    }

    /// Board, both indexes: what make/unmake edit.
    pub open spec fn state(self) -> (Seq<Figure>, ListView, ListView) {
        (self.board.cells@, self.white_list@, self.black_list@)
    }

    pub open spec fn wf(self) -> bool {
        &&& valid_board(self.board)
        &&& indexes(self.board, self.white_list@, Color::WHITE)
        &&& indexes(self.board, self.black_list@, Color::BLACK)
        &&& is_side(self.friend_color)
        &&& self.enemy_color == inverted(self.friend_color)
    }

    /// A move that make/unmake handle: from a friend piece to a square on
    /// the board that is not a friend's; a promotion goes to an empty one;
    /// an exchange goes to any square on the board.
    pub open spec fn can_make(self, m: Move) -> bool {
        let to_color = self.board.at_point(m.to).color_of();
        &&& on_board_point(m.from)
        &&& on_board_point(m.to)
        &&& self.board.at_point(m.from).color_of() == self.friend_color
        &&& match m.m_type {
            MoveType::SIMPLE => to_color != self.friend_color,
            MoveType::TRANSFORM => to_color == Color::NONE,
            MoveType::SWAP => true,
        }
    }

    /// `info` records square `p`: its figure, and the link naming it in the
    /// index of that figure's side.
    pub open spec fn info_ok(self, info: PointInfo, p: Point) -> bool {
        let col = self.board.at_point(p).color_of();
        &&& info.point == p
        &&& info.figure == self.board.at_point(p)
        &&& if col == self.friend_color {
            self.friend_view().cursor_of(info.cursor, p)
        } else if col == self.enemy_color {
            self.enemy_view().cursor_of(info.cursor, p)
        } else {
            info.cursor.cur == NO_NODE
        }
    }

    /// The indexes (white, black) after `m`, with the links `info` names.
    pub open spec fn lists_after(self, m: Move, info: (PointInfo, PointInfo)) -> (ListView, ListView) {
        let to_color = self.board.at_point(m.to).color_of();
        let moved = point_on(
            self.white_list@,
            self.black_list@,
            self.friend_color,
            info.0.cursor,
            m.to,
        );
        match m.m_type {
            MoveType::SIMPLE => if to_color == self.enemy_color {
                unlink_on(moved.0, moved.1, self.enemy_color, info.1.cursor)
            } else {
                moved
            },
            MoveType::SWAP => point_on(moved.0, moved.1, to_color, info.1.cursor, m.from),
            MoveType::TRANSFORM => moved,
        }
    }

    /// What `make_move(m)` did from `self` to `t`, returning `info`.
    pub open spec fn made(self, t: BoardController, m: Move, info: (PointInfo, PointInfo)) -> bool {
        &&& self.info_ok(info.0, m.from)
        &&& self.info_ok(info.1, m.to)
        &&& t.board.cells@ == cells_after(self.board.cells@, m)
        &&& (t.white_list@, t.black_list@) == self.lists_after(m, info)
        &&& t.friend_color == self.friend_color
        &&& t.enemy_color == self.enemy_color
        &&& t.position_counter == self.position_counter
    }

    /// The steps of `unmake_move(info)`, in order, may be taken.
    pub open spec fn undo_ok(self, info: (PointInfo, PointInfo)) -> bool {
        let c0 = info.0.figure.color_of();
        let c1 = info.1.figure.color_of();
        let first = relink_on(self.white_list@, self.black_list@, c0, info.0.cursor);
        &&& on_board_point(info.0.point)
        &&& on_board_point(info.1.point)
        &&& self.white_list@.wf()
        &&& self.black_list@.wf()
        &&& relinkable_on(self.white_list@, self.black_list@, c0, info.0.cursor)
        &&& relinkable_on(first.0, first.1, c1, info.1.cursor)
    }

    /// The state after `unmake_move(info)`.
    pub open spec fn undone(self, info: (PointInfo, PointInfo)) -> (Seq<Figure>, ListView, ListView) {
        undone_state(self.state(), info)
    }
}

impl PointInfo {
    /// Records square `point` of the controller's board.
    pub fn new(point: &Point, board_controller: &BoardController) -> (r: PointInfo)
        requires
            board_controller.wf(),
            on_board_point(*point),
        ensures
            board_controller.info_ok(r, *point),
    {
        let figure = *board_controller.board.point(*point);
        let color = figure.color();
        let mut cursor = LinkedNodeCursor::default();
        proof {
            let b = board_controller.board;
            assert(b.at(point.x as int, point.y as int) == figure);
            assert(Point { x: point.x as int as i8, y: point.y as int as i8 } == *point);
        }
        if color == board_controller.friend_color {
            match board_controller.friend_list().find(*point) {
                Some(c) => {
                    cursor = c;
                },
                None => {},
            }
        } else if color == board_controller.enemy_color {
            match board_controller.enemy_list().find(*point) {
                Some(c) => {
                    cursor = c;
                },
                None => {},
            }
        }
        PointInfo { figure, point: *point, cursor }
    }
}

impl BoardController {
    pub fn friend_color(&self) -> (r: Color)
        ensures
            r == self.friend_color,
    {
        self.friend_color
    }

    /// The index of the side to move.
    pub fn friend_list(&self) -> (r: &FigurePointList)
        ensures
            r@ == self.friend_view(),
    {
        if self.friend_color == Color::WHITE {
            &self.white_list
        } else {
            &self.black_list
        }
    }

    /// The index of the side that waits.
    pub fn enemy_list(&self) -> (r: &FigurePointList)
        ensures
            r@ == self.enemy_view(),
    {
        if self.enemy_color == Color::WHITE {
            &self.white_list
        } else {
            &self.black_list
        }
    }

    fn point_set_in(&mut self, col: Color, c: LinkedNodeCursor, p: Point)
        ensures
            (final(self).white_list@, final(self).black_list@) == point_on(
                old(self).white_list@,
                old(self).black_list@,
                col,
                c,
                p,
            ),
            final(self).board == old(self).board,
            final(self).friend_color == old(self).friend_color,
            final(self).enemy_color == old(self).enemy_color,
            final(self).position_counter == old(self).position_counter,
    {
        if col == Color::WHITE {
            c.point_set(&mut self.white_list, p);
        } else if col == Color::BLACK {
            c.point_set(&mut self.black_list, p);
        }
    }

    fn remove_in(&mut self, col: Color, c: LinkedNodeCursor)
        requires
            is_side(col),
            old(self).list_view(col).wf(),
            old(self).list_view(col).linked(c),
        ensures
            (final(self).white_list@, final(self).black_list@) == unlink_on(
                old(self).white_list@,
                old(self).black_list@,
                col,
                c,
            ),
            final(self).board == old(self).board,
            final(self).friend_color == old(self).friend_color,
            final(self).enemy_color == old(self).enemy_color,
            final(self).position_counter == old(self).position_counter,
    {
        if col == Color::WHITE {
            c.remove(&mut self.white_list);
        } else {
            c.remove(&mut self.black_list);
        }
    }

    fn restore_in(&mut self, col: Color, c: LinkedNodeCursor)
        requires
            relinkable_on(old(self).white_list@, old(self).black_list@, col, c),
        ensures
            (final(self).white_list@, final(self).black_list@) == relink_on(
                old(self).white_list@,
                old(self).black_list@,
                col,
                c,
            ),
            final(self).board == old(self).board,
            final(self).friend_color == old(self).friend_color,
            final(self).enemy_color == old(self).enemy_color,
            final(self).position_counter == old(self).position_counter,
    {
        if col == Color::WHITE {
            c.restore(&mut self.white_list);
        } else if col == Color::BLACK {
            c.restore(&mut self.black_list);
        }
    }

    /// The moves of the side to move, in the order of its index.
    pub fn friend_movies(&self) -> (r: MoveList)
        requires
            self.wf(),
        ensures
            r.moves@ == list_moves(self.board, self.friend_view().points()),
    {
        let fl = self.friend_list();
        proof {
            assert forall|i: int| 0 <= i < fl.points().len() implies crate::movement::movable_at(
                self.board,
                #[trigger] fl.points()[i],
            ) by {
                let p = fl.points()[i];
                assert(valid_cell(self.board.at(p.x as int, p.y as int)));
            }
        }
        MoveList::new(&MoveGenerator::new(&self.board, fl))
    }

    /// The moves of the figure at `point`; none where no piece stands.
    pub fn point_movies(&self, point: Point) -> (r: MoveList)
        requires
            self.board.guarded(),
        ensures
            r.moves@ == (if crate::movement::movable_at(self.board, point) {
                piece_moves(self.board, point)
            } else {
                Seq::<Move>::empty()
            }),
    {
        let mut move_list = MoveList::default();
        if 0 <= point.x() && point.x() < 8 && 0 <= point.y() && point.y() < 8 {
            let f = *self.board.point(point);
            let c = f.color();
            let r = f.rank();
            if (c == Color::WHITE || c == Color::BLACK) && r != Rank::NONE && r != Rank::OUT {
                MoveGenerator::new(&self.board, self.friend_list()).fill_for_figure(
                    point,
                    &mut move_list,
                );
                assert(move_list.moves@ =~= piece_moves(self.board, point));
            }
        }
        move_list
    }

    /// Whether `movement` starts on the board at a piece of the side to
    /// move and is one of that piece's generated moves.
    pub fn is_valid_move(&self, movement: &Move) -> (r: bool)
        requires
            self.wf(),
        ensures
            r == (on_board_point(movement.from) && self.board.at_point(movement.from).color_of()
                == self.friend_color && piece_moves(self.board, movement.from).contains(*movement)),
    {
        if movement.from.x() > 7 || movement.from.x() < 0 || movement.from.y() > 7
            || movement.from.y() < 0 {
            return false;
        }
        if self.board.point(movement.from).color() != self.friend_color {
            return false;
        }
        proof {
            let p = movement.from;
            assert(valid_cell(self.board.at(p.x as int, p.y as int)));
            assert(crate::movement::movable_at(self.board, movement.from));
        }
        let move_list = self.point_movies(movement.from);
        let moves = move_list.iter();
        let mut i: usize = 0;
        while i < moves.len()
            invariant
                moves@ == move_list.moves@,
                move_list.moves@ == piece_moves(self.board, movement.from),
                on_board_point(movement.from),
                self.board.at_point(movement.from).color_of() == self.friend_color,
                0 <= i <= moves@.len(),
                forall|j: int| 0 <= j < i ==> moves@[j] != *movement,
            decreases moves@.len() - i,
        {
            if moves[i] == *movement {
                proof {
                    assert(moves@[i as int] == *movement);
                    assert(piece_moves(self.board, movement.from).contains(*movement));
                }
                return true;
            }
            i += 1;
        }
        proof {
            let pm = piece_moves(self.board, movement.from);
            if pm.contains(*movement) {
                let j = choose|j: int| 0 <= j < pm.len() && pm[j] == *movement;
                assert(moves@[j] != *movement);
            }
        }
        false
    }

    /// Plays `movement` on the board and both indexes, and returns what
    /// `unmake_move` needs to take it back.
    pub fn make_move(&mut self, movement: &Move) -> (r: (PointInfo, PointInfo))
        requires
            old(self).wf(),
            old(self).can_make(*movement),
        ensures
            old(self).made(*final(self), *movement, r),
            final(self).wf(),
            final(self).undo_ok(r),
            final(self).undone(r) == old(self).state(),
    {
        let from_info = PointInfo::new(&movement.from, self);
        let to_info = PointInfo::new(&movement.to, self);
        let ghost s = *self;
        let f = self.friend_color;
        let e = self.enemy_color;
        match movement.m_type {
            MoveType::SIMPLE => {
                self.point_set_in(f, from_info.cursor, movement.to);
                if to_info.figure.color() == e {
                    proof {
                        let k = lemma_cursor_of(s.enemy_view(), to_info.cursor, movement.to);
                    }
                    self.remove_in(e, to_info.cursor);
                }
                let moving = *self.board.point(movement.from);
                self.board.set_point(movement.to, moving);
                self.board.set_point(movement.from, Figure::empty());
            },
            MoveType::SWAP => {
                self.point_set_in(f, from_info.cursor, movement.to);
                self.point_set_in(to_info.figure.color(), to_info.cursor, movement.from);
                self.board.swap(movement.from, movement.to);
            },
            MoveType::TRANSFORM => {
                self.point_set_in(f, from_info.cursor, movement.to);
                let fig = *self.board.point(movement.from);
                self.board.set_point(movement.from, Figure::empty());
                self.board.set_point(movement.to, Figure::new(Rank::QUEEN, fig.color(), false));
            },
        }
        proof {
            lemma_made_wf(s, *self, *movement, (from_info, to_info));
            lemma_make_unmake(s, *self, *movement, (from_info, to_info));
        }
        (from_info, to_info)
    }

    /// Takes back the move that `move_info` records: relinks both links,
    /// restores both points and writes both figures back.
    pub fn unmake_move(&mut self, move_info: (PointInfo, PointInfo))
        requires
            old(self).undo_ok(move_info),
        ensures
            final(self).state() == old(self).undone(move_info),
            final(self).friend_color == old(self).friend_color,
            final(self).enemy_color == old(self).enemy_color,
            final(self).position_counter == old(self).position_counter,
    {
        let c0 = move_info.0.figure.color();
        let c1 = move_info.1.figure.color();
        proof {
            let a = relink_on(self.white_list@, self.black_list@, c0, move_info.0.cursor);
            if c0 == Color::WHITE {
                lemma_relink(self.white_list@, move_info.0.cursor);
            } else if c0 == Color::BLACK {
                lemma_relink(self.black_list@, move_info.0.cursor);
            }
        }
        self.restore_in(c0, move_info.0.cursor);
        self.restore_in(c1, move_info.1.cursor);
        self.point_set_in(c0, move_info.0.cursor, move_info.0.point);
        self.point_set_in(c1, move_info.1.cursor, move_info.1.point);
        self.board.set_point(move_info.0.point, move_info.0.figure);
        self.board.set_point(move_info.1.point, move_info.1.figure);
    }

    /// The generated move of the side to move from `from` to `to`, if any:
    /// a text move does not say its type, the generator does.
    pub fn find_move(&self, from: Point, to: Point) -> (r: Option<Move>)
        requires
            self.wf(),
        ensures
            r matches Some(m) ==> m.from == from && m.to == to && on_board_point(from)
                && self.board.at_point(from).color_of() == self.friend_color && piece_moves(
                self.board,
                from,
            ).contains(m),
            r is None ==> !(on_board_point(from) && self.board.at_point(from).color_of()
                == self.friend_color && exists|i: int|
                0 <= i < piece_moves(self.board, from).len() && #[trigger] piece_moves(
                    self.board,
                    from,
                )[i].to == to),
    {
        if from.x() > 7 || from.x() < 0 || from.y() > 7 || from.y() < 0 {
            return None;
        }
        if self.board.point(from).color() != self.friend_color {
            return None;
        }
        proof {
            assert(valid_cell(self.board.at(from.x as int, from.y as int)));
            lemma_piece_moves_sound(self.board, from);
        }
        let move_list = self.point_movies(from);
        let moves = move_list.iter();
        let mut i: usize = 0;
        while i < moves.len()
            invariant
                moves@ == piece_moves(self.board, from),
                on_board_point(from),
                self.board.at_point(from).color_of() == self.friend_color,
                forall|j: int| 0 <= j < moves@.len() ==> (#[trigger] moves@[j]).from == from,
                0 <= i <= moves@.len(),
                forall|j: int| 0 <= j < i ==> (#[trigger] moves@[j]).to != to,
            decreases moves@.len() - i,
        {
            if moves[i].to == to {
                proof {
                    assert(moves@.contains(moves@[i as int]));
                }
                return Some(moves[i]);
            }
            i += 1;
        }
        None
    }

    /// Makes `movement` if it is valid for the side to move.
    pub fn validate_and_make_move(&mut self, movement: &Move) -> (r: Option<(PointInfo, PointInfo)>)
        requires
            old(self).wf(),
        ensures
            final(self).wf(),
            r is Some <==> (on_board_point(movement.from) && old(self).board.at_point(
                movement.from,
            ).color_of() == old(self).friend_color && piece_moves(old(self).board, movement.from).contains(
                *movement,
            )),
            r matches Some(info) ==> old(self).made(*final(self), *movement, info),
            r is None ==> *final(self) == *old(self),
    {
        if !self.is_valid_move(movement) {
            return None;
        }
        proof {
            let p = movement.from;
            assert(valid_cell(self.board.at(p.x as int, p.y as int)));
            lemma_piece_moves_sound(self.board, p);
            let pm = piece_moves(self.board, p);
            let i = choose|i: int| 0 <= i < pm.len() && pm[i] == *movement;
            assert(sound_move(self.board, p, pm[i]));
        }
        Some(self.make_move(movement))
    }

    /// Hands the turn to the other side.
    pub fn pass_move_to_enemy(&mut self)
        ensures
            final(self).friend_color == old(self).enemy_color,
            final(self).enemy_color == old(self).friend_color,
            final(self).state() == old(self).state(),
            final(self).board == old(self).board,
            final(self).position_counter == old(self).position_counter,
    {
        let c = self.friend_color;
        self.friend_color = self.enemy_color;
        self.enemy_color = c;
    }

    /// Whether the side to move still has its king.
    pub fn is_king_alive(&self) -> (r: bool)
        requires
            self.wf(),
        ensures
            r == exists|i: int|
                0 <= i < self.friend_view().points().len() && #[trigger] self.board.at_point(
                    self.friend_view().points()[i],
                ).rank_of() == Rank::KING,
    {
        let pts = self.friend_list().iter();
        let mut i: usize = 0;
        while i < pts.len()
            invariant
                self.wf(),
                pts@ == self.friend_view().points(),
                0 <= i <= pts@.len(),
                forall|j: int| 0 <= j < i ==> #[trigger] self.board.at_point(pts@[j]).rank_of() != Rank::KING,
            decreases pts@.len() - i,
        {
            proof {
                assert(on_board_point(pts@[i as int]));
            }
            let f = *self.board.point(pts[i]);
            if f.rank() == Rank::KING && f.color() == self.friend_color {
                return true;
            }
            proof {
                assert(self.board.at_point(pts@[i as int]).color_of() == self.friend_color);
            }
            i += 1;
        }
        false
    }

    /// The first move of the list that is simple and takes the enemy king.
    pub fn find_king_eat_move(&self, move_list: &MoveList) -> (r: Option<Move>)
        requires
            self.board.guarded(),
            forall|i: int|
                0 <= i < move_list.moves@.len() ==> on_board_point(#[trigger] move_list.moves@[i].to),
        ensures
            r matches Some(m) ==> exists|i: int|
                0 <= i < move_list.moves@.len() && move_list.moves@[i] == m && self.eats_king(m)
                    && forall|j: int| 0 <= j < i ==> !self.eats_king(#[trigger] move_list.moves@[j]),
            r is None ==> forall|i: int|
                0 <= i < move_list.moves@.len() ==> !self.eats_king(#[trigger] move_list.moves@[i]),
    {
        let moves = move_list.iter();
        let mut i: usize = 0;
        while i < moves.len()
            invariant
                moves@ == move_list.moves@,
                forall|j: int| 0 <= j < moves@.len() ==> on_board_point(#[trigger] moves@[j].to),
                0 <= i <= moves@.len(),
                forall|j: int| 0 <= j < i ==> !self.eats_king(#[trigger] moves@[j]),
            decreases moves@.len() - i,
        {
            let m = moves[i];
            proof {
                assert(on_board_point(moves@[i as int].to));
            }
            let f = *self.board.point(m.to);
            if m.m_type == MoveType::SIMPLE && f.rank() == Rank::KING && f.color() == self.enemy_color {
                proof {
                    assert(moves@[i as int] == m);
                }
                return Some(m);
            }
            i += 1;
        }
        None
    }

    /// `m` is a simple move onto the enemy king.
    pub open spec fn eats_king(self, m: Move) -> bool {
        &&& m.m_type == MoveType::SIMPLE
        &&& self.board.at_point(m.to).rank_of() == Rank::KING
        &&& self.board.at_point(m.to).color_of() == self.enemy_color
    }

}

impl BoardDataHolder {
    pub open spec fn wf(self) -> bool {
        &&& valid_board(self.board)
        &&& indexes(self.board, self.white_list@, Color::WHITE)
        &&& indexes(self.board, self.black_list@, Color::BLACK)
    }

    /// A copy of `board` with both indexes filled from it.
    pub fn new(board: &ByteBoard) -> (r: BoardDataHolder)
        requires
            valid_board(*board),
            fill_order(*board, Color::WHITE).len() <= crate::figure_list::CAPACITY,
            fill_order(*board, Color::BLACK).len() <= crate::figure_list::CAPACITY,
        ensures
            r.wf(),
            r.board == *board,
            r.white_list.points() == fill_order(*board, Color::WHITE),
            r.black_list.points() == fill_order(*board, Color::BLACK),
    {
        let white_list = FigurePointList::new(board, Color::WHITE);
        let black_list = FigurePointList::new(board, Color::BLACK);
        proof {
            lemma_fill_indexes(*board, Color::WHITE);
            lemma_fill_indexes(*board, Color::BLACK);
        }
        BoardDataHolder { board: *board, white_list, black_list }
    }

    /// A controller over this data with `color` to move.
    pub fn controller(self, color: Color) -> (r: BoardController)
        requires
            self.wf(),
            is_side(color),
        ensures
            r.wf(),
            r.board == self.board,
            r.white_list@ == self.white_list@,
            r.black_list@ == self.black_list@,
            r.friend_color == color,
            r.position_counter == 0,
    {
        BoardController {
            board: self.board,
            white_list: self.white_list,
            black_list: self.black_list,
            friend_color: color,
            enemy_color: color.invert(),
            position_counter: 0,
        }
    }
}

impl BoardController {
    /// Gives the board and indexes back.
    pub fn into_holder(self) -> (r: BoardDataHolder)
        ensures
            r.board == self.board,
            r.white_list@ == self.white_list@,
            r.black_list@ == self.black_list@,
            self.wf() ==> r.wf(),
    {
        BoardDataHolder { board: self.board, white_list: self.white_list, black_list: self.black_list }
    }
}

/// An index holding exactly the fill order of `c` indexes `c`'s cells.
pub proof fn lemma_fill_indexes(b: ByteBoard, c: Color)
    ensures
        forall|l: ListView| l.wf() && l.points() == fill_order(b, c) ==> indexes(b, l, c),
{
    crate::figure_list::lemma_fill_order(b, c);
    assert forall|l: ListView| l.wf() && l.points() == fill_order(b, c) implies indexes(b, l, c) by {
        assert forall|x: int, y: int|
            on_board(x, y) && (#[trigger] b.at(x, y)).color_of() == c implies l.points().contains(
            Point { x: x as i8, y: y as i8 },
        ) by {
            let p = Point { x: x as i8, y: y as i8 };
            assert(b.at_point(p) == b.at(x, y));
            assert(fill_order(b, c).contains(p));
        }
    }
}

/// The on-board cells of color `c`.
pub open spec fn colored_cells(b: ByteBoard, c: Color) -> Set<Point> {
    Set::new(|p: Point| on_board_point(p) && b.at_point(p).color_of() == c)
}

/// An index lists as many points as there are cells of its color.
pub proof fn lemma_index_count(b: ByteBoard, l: ListView, c: Color)
    requires
        indexes(b, l, c),
    ensures
        l.points().len() == colored_cells(b, c).len(),
{
    let pts = l.points();
    pts.unique_seq_to_set();
    assert forall|p: Point| #[trigger] colored_cells(b, c).contains(p) implies pts.to_set().contains(p) by {
        assert(b.at(p.x as int, p.y as int) == b.at_point(p));
        assert(Point { x: p.x as int as i8, y: p.y as int as i8 } == p);
    }
    assert(pts.to_set() =~= colored_cells(b, c));
}

/// The index that `fill` builds lists heavier figures first.
pub proof fn lemma_fill_descending(b: ByteBoard, c: Color)
    ensures
        forall|i: int, j: int|
            0 <= i < j < fill_order(b, c).len() ==> b.at_point(#[trigger] fill_order(b, c)[i]).weight_of()
                >= b.at_point(#[trigger] fill_order(b, c)[j]).weight_of(),
{
    crate::figure_list::lemma_fill_order(b, c);
    let fo = fill_order(b, c);
    assert forall|i: int, j: int| 0 <= i < j < fo.len() implies b.at_point(#[trigger] fo[i]).weight_of()
        >= b.at_point(#[trigger] fo[j]).weight_of() by {
        assert(crate::figure_list::rank_class(b.at_point(fo[i]).rank_of())
            <= crate::figure_list::rank_class(b.at_point(fo[j]).rank_of()));
    }
}

/// The board after move `m`.
pub open spec fn board_after(b: ByteBoard, m: Move) -> ByteBoard {
    let from = cell_index(m.from.x as int, m.from.y as int);
    let to = cell_index(m.to.x as int, m.to.y as int);
    match m.m_type {
        MoveType::SIMPLE => ByteBoard {
            cells: spec_array_update(spec_array_update(b.cells, to, b.cells@[from]), from, empty_figure()),
        },
        MoveType::SWAP => ByteBoard {
            cells: spec_array_update(spec_array_update(b.cells, from, b.cells@[to]), to, b.cells@[from]),
        },
        MoveType::TRANSFORM => ByteBoard {
            cells: spec_array_update(
                spec_array_update(b.cells, from, empty_figure()),
                to,
                figure_of(Rank::QUEEN, b.cells@[from].color_of(), false),
            ),
        },
    }
}

/// The mover's points after `m`: `from` becomes `to` in place.
pub open spec fn moved_points(pts: Seq<Point>, m: Move) -> Seq<Point> {
    pts.update(pts.index_of(m.from), m.to)
}

/// The other side's points after `m`: a captured point leaves.
pub open spec fn captured_points(pts: Seq<Point>, m: Move) -> Seq<Point> {
    if pts.contains(m.to) {
        pts.remove(pts.index_of(m.to))
    } else {
        pts
    }
}

proof fn lemma_index_of_unique(s: Seq<Point>, k: int)
    requires
        s.no_duplicates(),
        0 <= k < s.len(),
    ensures
        s.index_of(s[k]) == k,
        s.contains(s[k]),
{
    assert(s.contains(s[k]));
    let j = s.index_of(s[k]);
}

/// The cells after a handled move: `to` holds the mover's color, `from` is
/// empty, every other cell is as it was.
proof fn lemma_cells_after(s: BoardController, m: Move)
    requires
        s.wf(),
        s.can_make(m),
    ensures
        valid_board(board_after(s.board, m)),
        board_after(s.board, m).cells@ == cells_after(s.board.cells@, m),
        m.m_type != MoveType::SWAP ==> board_after(s.board, m).at_point(m.to).color_of()
            == s.friend_color && board_after(s.board, m).at_point(m.from) == empty_figure(),
        m.m_type == MoveType::SWAP ==> board_after(s.board, m).at_point(m.from) == s.board.at_point(
            m.to,
        ) && board_after(s.board, m).at_point(m.to) == s.board.at_point(m.from),
        forall|x: int, y: int|
            on_board(x, y) && (x != m.to.x || y != m.to.y) && (x != m.from.x || y != m.from.y)
                ==> #[trigger] board_after(s.board, m).at(x, y) == s.board.at(x, y),
{
    let b2 = board_after(s.board, m);
    let from = cell_index(m.from.x as int, m.from.y as int);
    let to = cell_index(m.to.x as int, m.to.y as int);
    lemma_figure_of(Rank::QUEEN, s.friend_color, false);
    lemma_figure_of(Rank::NONE, Color::NONE, false);
    assert(b2.cells@ == cells_after(s.board.cells@, m));
    assert forall|x: int, y: int|
        crate::board::in_band(x, y) && (x != m.to.x || y != m.to.y) && (x != m.from.x || y != m.from.y)
            implies #[trigger] b2.at(x, y) == s.board.at(x, y) by {
        assert(cell_index(x, y) != from && cell_index(x, y) != to);
    }
    assert(valid_cell(s.board.at(m.from.x as int, m.from.y as int)));
    assert(valid_cell(s.board.at(m.to.x as int, m.to.y as int)));
    assert forall|x: int, y: int| on_board(x, y) implies valid_cell(#[trigger] b2.at(x, y)) by {
        if (x != m.to.x || y != m.to.y) && (x != m.from.x || y != m.from.y) {
            assert(valid_cell(s.board.at(x, y)));
        }
    }
    assert forall|x: int, y: int|
        crate::board::in_band(x, y) && !on_board(x, y) implies #[trigger] b2.at(x, y)
            == crate::board::out_figure() by {
        assert(cell_index(x, y) != from && cell_index(x, y) != to);
    }
}

/// After a move the mover's index, with `from` rewritten to `to`, lists
/// exactly the mover's cells.
proof fn lemma_mover_index(
    b: ByteBoard,
    b2: ByteBoard,
    l: ListView,
    c: LinkedNodeCursor,
    k: int,
    col: Color,
    m: Move,
)
    requires
        indexes(b, l, col),
        l.cursor_at(c, k),
        l.points()[k] == m.from,
        on_board_point(m.from),
        on_board_point(m.to),
        b.at_point(m.to).color_of() != col,
        b2.at_point(m.to).color_of() == col,
        b2.at_point(m.from).color_of() != col,
        forall|x: int, y: int|
            on_board(x, y) && (x != m.to.x || y != m.to.y) && (x != m.from.x || y != m.from.y)
                ==> #[trigger] b2.at(x, y) == b.at(x, y),
    ensures
        indexes(b2, l.with_point(c, m.to), col),
        l.with_point(c, m.to).points() == moved_points(l.points(), m),
{
    let p = l.points();
    lemma_with_point(l, c, k, m.to);
    lemma_index_of_unique(p, k);
    let p2 = p.update(k, m.to);
    assert(!p.contains(m.to)) by {
        if p.contains(m.to) {
            let i = choose|i: int| 0 <= i < p.len() && p[i] == m.to;
        }
    }
    assert forall|i: int| 0 <= i < p.len() && i != k implies p[i] != m.from && p[i] != m.to by {}
    assert(p2.no_duplicates()) by {
        assert forall|i: int, j: int|
            0 <= i < p2.len() && 0 <= j < p2.len() && i != j implies p2[i] != p2[j] by {
            if i == k {
                assert(p[j] != m.to);
            } else if j == k {
                assert(p[i] != m.to);
            }
        }
    }
    assert forall|i: int| 0 <= i < p2.len() implies on_board_point(#[trigger] p2[i])
        && b2.at_point(p2[i]).color_of() == col by {
        if i != k {
            assert(b2.at(p[i].x as int, p[i].y as int) == b.at(p[i].x as int, p[i].y as int));
        }
    }
    assert forall|x: int, y: int|
        on_board(x, y) && (#[trigger] b2.at(x, y)).color_of() == col implies p2.contains(
        Point { x: x as i8, y: y as i8 },
    ) by {
        let q = Point { x: x as i8, y: y as i8 };
        if x == m.to.x && y == m.to.y {
            assert(p2[k] == q);
        } else {
            assert(x != m.from.x || y != m.from.y);
            assert(b.at(x, y).color_of() == col);
            let i = choose|i: int| 0 <= i < p.len() && p[i] == q;
            assert(i != k);
            assert(p2[i] == q);
        }
    }
}

/// After a move the other side's index, with a captured point unlinked,
/// lists exactly that side's cells.
proof fn lemma_other_index(
    b: ByteBoard,
    b2: ByteBoard,
    l: ListView,
    l2: ListView,
    c: LinkedNodeCursor,
    col: Color,
    m: Move,
)
    requires
        indexes(b, l, col),
        on_board_point(m.from),
        on_board_point(m.to),
        b.at_point(m.from).color_of() != col,
        b2.at_point(m.to).color_of() != col,
        b2.at_point(m.from).color_of() != col,
        forall|x: int, y: int|
            on_board(x, y) && (x != m.to.x || y != m.to.y) && (x != m.from.x || y != m.from.y)
                ==> #[trigger] b2.at(x, y) == b.at(x, y),
        b.at_point(m.to).color_of() == col ==> l.cursor_of(c, m.to) && l2 == l.unlinked(c),
        b.at_point(m.to).color_of() != col ==> l2 == l,
    ensures
        indexes(b2, l2, col),
        l2.points() == captured_points(l.points(), m),
{
    let p = l.points();
    if b.at_point(m.to).color_of() == col {
        let k = lemma_cursor_of(l, c, m.to);
        lemma_unlink(l, c, k);
        lemma_index_of_unique(p, k);
        let p2 = p.remove(k);
        assert forall|i: int| 0 <= i < p2.len() implies #[trigger] p2[i] == (if i < k {
            p[i]
        } else {
            p[i + 1]
        }) by {}
        assert(p2.no_duplicates()) by {
            assert forall|i: int, j: int|
                0 <= i < p2.len() && 0 <= j < p2.len() && i != j implies p2[i] != p2[j] by {
                let ii = if i < k { i } else { i + 1 };
                let jj = if j < k { j } else { j + 1 };
                assert(p2[i] == p[ii] && p2[j] == p[jj]);
            }
        }
        assert forall|i: int| 0 <= i < p2.len() implies on_board_point(#[trigger] p2[i])
            && b2.at_point(p2[i]).color_of() == col by {
            let ii = if i < k { i } else { i + 1 };
            assert(p2[i] == p[ii]);
            assert(p[ii] != m.to);
            assert(p[ii] != m.from);
            assert(b2.at(p[ii].x as int, p[ii].y as int) == b.at(p[ii].x as int, p[ii].y as int));
        }
        assert forall|x: int, y: int|
            on_board(x, y) && (#[trigger] b2.at(x, y)).color_of() == col implies p2.contains(
            Point { x: x as i8, y: y as i8 },
        ) by {
            let q = Point { x: x as i8, y: y as i8 };
            assert(x != m.from.x || y != m.from.y);
            assert(x != m.to.x || y != m.to.y);
            assert(b.at(x, y).color_of() == col);
            let i = choose|i: int| 0 <= i < p.len() && p[i] == q;
            assert(i != k);
            if i < k {
                assert(p2[i] == q);
            } else {
                assert(p2[i - 1] == q);
            }
        }
    } else {
        assert(!p.contains(m.to)) by {
            if p.contains(m.to) {
                let i = choose|i: int| 0 <= i < p.len() && p[i] == m.to;
            }
        }
        assert forall|i: int| 0 <= i < p.len() implies on_board_point(#[trigger] p[i])
            && b2.at_point(p[i]).color_of() == col by {
            assert(p[i] != m.to);
            assert(p[i] != m.from);
            assert(b2.at(p[i].x as int, p[i].y as int) == b.at(p[i].x as int, p[i].y as int));
        }
        assert forall|x: int, y: int|
            on_board(x, y) && (#[trigger] b2.at(x, y)).color_of() == col implies p.contains(
            Point { x: x as i8, y: y as i8 },
        ) by {
            assert(x != m.from.x || y != m.from.y);
            assert(x != m.to.x || y != m.to.y);
            assert(b.at(x, y).color_of() == col);
        }
    }
}

/// A made move keeps the controller well formed; its board and points are
/// those of `board_after`, `moved_points` and `captured_points`.
pub proof fn lemma_made_wf(s: BoardController, t: BoardController, m: Move, info: (PointInfo, PointInfo))
    requires
        s.wf(),
        s.can_make(m),
        s.made(t, m, info),
    ensures
        t.wf(),
        t.board == board_after(s.board, m),
        m.m_type != MoveType::SWAP ==> t.friend_view().points() == moved_points(
            s.friend_view().points(),
            m,
        ),
        m.m_type != MoveType::SWAP ==> t.enemy_view().points() == captured_points(
            s.enemy_view().points(),
            m,
        ),
        m.m_type == MoveType::SWAP ==> t.friend_view().points() == swapped_points(
            s.friend_view().points(),
            m,
        ) && t.enemy_view().points() == swapped_points(s.enemy_view().points(), m),
{
    lemma_cells_after(s, m);
    assert(t.board.cells =~= board_after(s.board, m).cells);
    if m.m_type == MoveType::SWAP {
        lemma_made_wf_swap(s, t, m, info);
        return ;
    }
    let b = s.board;
    let b2 = t.board;
    let f = s.friend_color;
    let e = s.enemy_color;
    let fl = s.friend_view();
    let el = s.enemy_view();
    let k0 = lemma_cursor_of(fl, info.0.cursor, m.from);
    lemma_mover_index(b, b2, fl, info.0.cursor, k0, f, m);
    lemma_with_point(fl, info.0.cursor, k0, m.to);
    let el2 = if b.at_point(m.to).color_of() == e && m.m_type == MoveType::SIMPLE {
        el.unlinked(info.1.cursor)
    } else {
        el
    };
    lemma_other_index(b, b2, el, el2, info.1.cursor, e, m);
}

/// The points of an index after an exchange: `from` and `to` trade places.
pub open spec fn swapped_points(pts: Seq<Point>, m: Move) -> Seq<Point> {
    pts.map_values(
        |p: Point|
            if p == m.from {
                m.to
            } else if p == m.to {
                m.from
            } else {
                p
            },
    )
}

/// After an exchange an index with `from` and `to` traded lists exactly
/// its color's cells.
proof fn lemma_swap_index(b: ByteBoard, b2: ByteBoard, l: ListView, l2: ListView, col: Color, m: Move)
    requires
        indexes(b, l, col),
        l2.wf(),
        l2.points() == swapped_points(l.points(), m),
        on_board_point(m.from),
        on_board_point(m.to),
        b2.at_point(m.from) == b.at_point(m.to),
        b2.at_point(m.to) == b.at_point(m.from),
        forall|x: int, y: int|
            on_board(x, y) && (x != m.to.x || y != m.to.y) && (x != m.from.x || y != m.from.y)
                ==> #[trigger] b2.at(x, y) == b.at(x, y),
    ensures
        indexes(b2, l2, col),
{
    let p = l.points();
    let p2 = l2.points();
    assert(p2.no_duplicates()) by {
        assert forall|i: int, j: int|
            0 <= i < p2.len() && 0 <= j < p2.len() && i != j implies p2[i] != p2[j] by {
            assert(p[i] != p[j]);
        }
    }
    assert forall|i: int| 0 <= i < p2.len() implies on_board_point(#[trigger] p2[i])
        && b2.at_point(p2[i]).color_of() == col by {
        let q = p[i];
        if q != m.from && q != m.to {
            assert(b2.at(q.x as int, q.y as int) == b.at(q.x as int, q.y as int));
        }
    }
    assert forall|x: int, y: int|
        on_board(x, y) && (#[trigger] b2.at(x, y)).color_of() == col implies p2.contains(
        Point { x: x as i8, y: y as i8 },
    ) by {
        let q = Point { x: x as i8, y: y as i8 };
        let o = if q == m.from {
            m.to
        } else if q == m.to {
            m.from
        } else {
            q
        };
        if q != m.from && q != m.to {
            assert(b.at(x, y).color_of() == col);
        }
        assert(b.at(o.x as int, o.y as int).color_of() == col);
        assert(p.contains(Point { x: o.x as int as i8, y: o.y as int as i8 }));
        let i = choose|i: int| 0 <= i < p.len() && p[i] == o;
        assert(p2[i] == q);
    }
}

proof fn lemma_made_wf_swap(s: BoardController, t: BoardController, m: Move, info: (PointInfo, PointInfo))
    requires
        s.wf(),
        s.can_make(m),
        s.made(t, m, info),
        m.m_type == MoveType::SWAP,
        t.board == board_after(s.board, m),
    ensures
        t.wf(),
        t.friend_view().points() == swapped_points(s.friend_view().points(), m),
        t.enemy_view().points() == swapped_points(s.enemy_view().points(), m),
{
    lemma_cells_after(s, m);
    let b = s.board;
    let b2 = t.board;
    let f = s.friend_color;
    let e = s.enemy_color;
    let fl = s.friend_view();
    let el = s.enemy_view();
    let c0 = info.0.cursor;
    let c1 = info.1.cursor;
    let to_color = b.at_point(m.to).color_of();
    assert(valid_cell(b.at(m.to.x as int, m.to.y as int)));
    let k0 = lemma_cursor_of(fl, c0, m.from);
    lemma_with_point(fl, c0, k0, m.to);
    let f1 = fl.with_point(c0, m.to);
    let fp = fl.points();
    let ep = el.points();
    assert(!ep.contains(m.from)) by {
        if ep.contains(m.from) {
            let i = choose|i: int| 0 <= i < ep.len() && ep[i] == m.from;
        }
    }
    if to_color == f {
        let k1 = lemma_cursor_of(fl, c1, m.to);
        lemma_with_point(f1, c1, k1, m.from);
        let f2 = f1.with_point(c1, m.from);
        assert(f2.points() =~= swapped_points(fp, m)) by {
            assert forall|i: int| 0 <= i < fp.len() implies f2.points()[i] == swapped_points(fp, m)[i] by {
                if i != k0 && i != k1 {
                    assert(fp[i] != m.from && fp[i] != m.to);
                }
            }
        }
        assert(!ep.contains(m.to)) by {
            if ep.contains(m.to) {
                let i = choose|i: int| 0 <= i < ep.len() && ep[i] == m.to;
            }
        }
        assert(el.points() =~= swapped_points(ep, m)) by {
            assert forall|i: int| 0 <= i < ep.len() implies ep[i] != m.from && ep[i] != m.to by {}
        }
        lemma_swap_index(b, b2, fl, f2, f, m);
        lemma_swap_index(b, b2, el, el, e, m);
    } else if to_color == e {
        let k1 = lemma_cursor_of(el, c1, m.to);
        lemma_with_point(el, c1, k1, m.from);
        let e1 = el.with_point(c1, m.from);
        assert(!fp.contains(m.to)) by {
            if fp.contains(m.to) {
                let i = choose|i: int| 0 <= i < fp.len() && fp[i] == m.to;
            }
        }
        assert(f1.points() =~= swapped_points(fp, m)) by {
            assert forall|i: int| 0 <= i < fp.len() implies f1.points()[i] == swapped_points(fp, m)[i] by {
                if i != k0 {
                    assert(fp[i] != m.from);
                }
            }
        }
        assert(e1.points() =~= swapped_points(ep, m)) by {
            assert forall|i: int| 0 <= i < ep.len() implies e1.points()[i] == swapped_points(ep, m)[i] by {
                if i != k1 {
                    assert(ep[i] != m.to);
                }
            }
        }
        lemma_swap_index(b, b2, fl, f1, f, m);
        lemma_swap_index(b, b2, el, e1, e, m);
    } else {
        assert(!fp.contains(m.to)) by {
            if fp.contains(m.to) {
                let i = choose|i: int| 0 <= i < fp.len() && fp[i] == m.to;
            }
        }
        assert(!ep.contains(m.to)) by {
            if ep.contains(m.to) {
                let i = choose|i: int| 0 <= i < ep.len() && ep[i] == m.to;
            }
        }
        assert(f1.points() =~= swapped_points(fp, m)) by {
            assert forall|i: int| 0 <= i < fp.len() implies f1.points()[i] == swapped_points(fp, m)[i] by {
                if i != k0 {
                    assert(fp[i] != m.from);
                }
            }
        }
        assert(el.points() =~= swapped_points(ep, m));
        lemma_swap_index(b, b2, fl, f1, f, m);
        lemma_swap_index(b, b2, el, el, e, m);
    }
}

/// Any run of moves, each made from the state the previous one left (the
/// side to move may change in between), is taken back exactly by unmaking
/// them in reverse order: board and both indexes return to the first state.
pub proof fn lemma_make_sequence_unmake(
    states: Seq<BoardController>,
    moves: Seq<Move>,
    infos: Seq<(PointInfo, PointInfo)>,
)
    requires
        states.len() == moves.len() + 1,
        infos.len() == moves.len(),
        forall|k: int|
            0 <= k < moves.len() ==> {
                &&& (#[trigger] states[k]).wf()
                &&& states[k].can_make(moves[k])
                &&& exists|t: BoardController|
                    states[k].made(t, moves[k], infos[k]) && t.state() == states[k + 1].state()
            },
    ensures
        unwind(states.last().state(), infos) == states[0].state(),
    decreases moves.len(),
{
    if moves.len() > 0 {
        let n = moves.len() - 1;
        let t = choose|t: BoardController|
            states[n].made(t, moves[n], infos[n]) && t.state() == states[n + 1].state();
        assert(states[n].wf());
        lemma_make_unmake(states[n], t, moves[n], infos[n]);
        let s1 = states.drop_last();
        assert forall|k: int| 0 <= k < moves.drop_last().len() implies {
            &&& (#[trigger] s1[k]).wf()
            &&& s1[k].can_make(moves.drop_last()[k])
            &&& exists|t: BoardController|
                s1[k].made(t, moves.drop_last()[k], infos.drop_last()[k]) && t.state() == s1[k
                    + 1].state()
        } by {
            assert(s1[k] == states[k] && s1[k + 1] == states[k + 1]);
            assert(moves.drop_last()[k] == moves[k] && infos.drop_last()[k] == infos[k]);
            assert(states[k].wf());
            let w = choose|w: BoardController|
                states[k].made(w, moves[k], infos[k]) && w.state() == states[k + 1].state();
            assert(s1[k].made(w, moves.drop_last()[k], infos.drop_last()[k]) && w.state() == s1[k
                + 1].state());
        }
        lemma_make_sequence_unmake(s1, moves.drop_last(), infos.drop_last());
        assert(s1.last() == states[n]);
    }
}

/// A point rewritten and then rewritten back leaves the index as it was,
/// and relinking a cursor that is still linked changes nothing.
proof fn lemma_point_round_trip(l: ListView, c: LinkedNodeCursor, k: int, p: Point)
    requires
        l.wf(),
        l.cursor_at(c, k),
    ensures
        l.with_point(c, p).relinked(c) == l.with_point(c, p),
        l.with_point(c, p).with_point(c, l.points()[k]) == l,
        relinkable(l.with_point(c, p), c),
{
    lemma_with_point(l, c, k, p);
    let w = l.with_point(c, p);
    assert(w.linked(c));
    assert(w.with_point(c, l.points()[k]).nodes =~= l.nodes);
}

/// A point of an index found by `cursor_of` is at the cursor's position.
proof fn lemma_cursor_of(l: ListView, c: LinkedNodeCursor, p: Point) -> (k: int)
    requires
        l.wf(),
        l.cursor_of(c, p),
    ensures
        l.cursor_at(c, k),
        l.points()[k] == p,
        c.cur < crate::figure_list::CAPACITY,
        l.nodes[c.cur as int].point == p,
{
    let k = choose|k: int| l.cursor_at(c, k) && l.points()[k] == p;
    k
}

/// Unmaking a made move restores the board and both indexes exactly.
pub proof fn lemma_make_unmake(
    s: BoardController,
    t: BoardController,
    m: Move,
    info: (PointInfo, PointInfo),
)
    requires
        s.wf(),
        s.can_make(m),
        s.made(t, m, info),
    ensures
        t.undo_ok(info),
        t.undone(info) == s.state(),
{
    let f = s.friend_color;
    let e = s.enemy_color;
    let fl = s.friend_view();
    let el = s.enemy_view();
    let c0 = info.0.cursor;
    let c1 = info.1.cursor;
    let to_color = s.board.at_point(m.to).color_of();
    let k0 = lemma_cursor_of(fl, c0, m.from);
    lemma_point_round_trip(fl, c0, k0, m.to);
    assert(valid_cell(s.board.at(m.to.x as int, m.to.y as int)));
    if m.m_type == MoveType::SWAP {
        let f1 = fl.with_point(c0, m.to);
        lemma_with_point(fl, c0, k0, m.to);
        if to_color == f {
            let k1 = lemma_cursor_of(fl, c1, m.to);
            lemma_with_point(f1, c1, k1, m.from);
            let f2 = f1.with_point(c1, m.from);
            assert(f2.linked(c0) && f2.linked(c1)) by {
                assert(f2.cursor_at(c0, k0));
                assert(f2.cursor_at(c1, k1));
            }
            lemma_with_point(f2, c0, k0, m.from);
            let f3 = f2.with_point(c0, m.from);
            lemma_with_point(f3, c1, k1, m.to);
            assert(f3.with_point(c1, m.to).nodes =~= fl.nodes) by {
                if k0 != k1 {
                    assert(c0.cur != c1.cur);
                }
            }
        } else if to_color == e {
            let k1 = lemma_cursor_of(el, c1, m.to);
            lemma_point_round_trip(el, c1, k1, m.from);
        }
        assert(t.undone(info).0 =~= s.board.cells@);
        return ;
    }
    let captures = m.m_type == MoveType::SIMPLE && to_color == e;
    if to_color == e {
        let k1 = lemma_cursor_of(el, c1, m.to);
        if captures {
            lemma_unlink(el, c1, k1);
        }
        assert(el.with_point(c1, m.to).nodes =~= el.nodes);
    }
    assert(t.undone(info).0 =~= s.board.cells@);
}

} // verus!
