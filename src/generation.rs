//! Facts about generated moves: each starts at its piece and ends on the
//! board on a square not of the piece's color, so that the controller can
//! make it; and the pawn's double push.

use vstd::prelude::*;
use crate::board::ByteBoard;
use crate::board_controller::{BoardController, on_board_point, valid_board, valid_cell};
use crate::figure::{Color, Rank, is_side, lemma_figure_of};
use crate::movement::{
    Move,
    MoveType,
    dir,
    jump,
    jump_moves,
    list_moves,
    movable_at,
    pawn_moves,
    piece_moves,
    ray_moves,
    slide_moves,
};
use crate::point::Point;

verus! {

/// What every generated move of the piece at `p` respects: it starts at
/// `p` and ends on the board, on a square not of the piece's color; a
/// promotion ends on an empty square.
pub open spec fn sound_move(b: ByteBoard, p: Point, m: Move) -> bool {
    &&& m.from == p
    &&& on_board_point(m.to)
    &&& b.at_point(m.to).color_of() != b.at_point(p).color_of()
    &&& (m.m_type == MoveType::SIMPLE || (m.m_type == MoveType::TRANSFORM && b.at_point(
        m.to,
    ).color_of() == Color::NONE))
}

/// A cell in reach of the board that is not `OUT` is on the board.
proof fn lemma_not_out(b: ByteBoard, q: Point)
    requires
        valid_board(b),
        crate::board::in_band(q.x as int, q.y as int),
        b.at_point(q).rank_of() != Rank::OUT || is_side(b.at_point(q).color_of()),
    ensures
        on_board_point(q),
{
    lemma_figure_of(Rank::OUT, Color::NONE, false);
}

proof fn lemma_jump_sound(b: ByteBoard, p: Point, knight: bool, n: int)
    requires
        valid_board(b),
        movable_at(b, p),
        0 <= n <= 8,
    ensures
        forall|i: int|
            0 <= i < jump_moves(b, p, knight, n).len() ==> sound_move(
                b,
                p,
                #[trigger] jump_moves(b, p, knight, n)[i],
            ),
    decreases n,
{
    if n > 0 {
        lemma_jump_sound(b, p, knight, n - 1);
        let d = jump(knight, n - 1);
        let q = p.plus(d.0, d.1);
        if b.at_point(q).rank_of() != Rank::OUT {
            lemma_not_out(b, q);
        }
        let a = jump_moves(b, p, knight, n - 1);
        let r = jump_moves(b, p, knight, n);
        assert forall|i: int| 0 <= i < r.len() implies sound_move(b, p, #[trigger] r[i]) by {
            if i < a.len() {
                assert(r[i] == a[i]);
            }
        }
    }
}

proof fn lemma_ray_sound(b: ByteBoard, origin: Point, cur: Point, dx: int, dy: int, fuel: nat)
    requires
        valid_board(b),
        movable_at(b, origin),
        on_board_point(cur),
        -1 <= dx <= 1,
        -1 <= dy <= 1,
    ensures
        forall|i: int|
            0 <= i < ray_moves(b, origin, cur, dx, dy, fuel).len() ==> sound_move(
                b,
                origin,
                #[trigger] ray_moves(b, origin, cur, dx, dy, fuel)[i],
            ),
    decreases fuel,
{
    if fuel > 0 {
        let q = cur.plus(dx, dy);
        if b.at_point(q).rank_of() != Rank::OUT {
            lemma_not_out(b, q);
            lemma_ray_sound(b, origin, q, dx, dy, (fuel - 1) as nat);
            let rest = ray_moves(b, origin, q, dx, dy, (fuel - 1) as nat);
            let r = ray_moves(b, origin, cur, dx, dy, fuel);
            assert forall|i: int| 0 <= i < r.len() implies sound_move(b, origin, #[trigger] r[i]) by {
                if i > 0 {
                    assert(r[i] == rest[i - 1]);
                }
            }
        }
    }
}

proof fn lemma_slide_sound(b: ByteBoard, p: Point, diagonal: bool, n: int)
    requires
        valid_board(b),
        movable_at(b, p),
        0 <= n <= 4,
    ensures
        forall|i: int|
            0 <= i < slide_moves(b, p, diagonal, n).len() ==> sound_move(
                b,
                p,
                #[trigger] slide_moves(b, p, diagonal, n)[i],
            ),
    decreases n,
{
    if n > 0 {
        lemma_slide_sound(b, p, diagonal, n - 1);
        let d = dir(diagonal, n - 1);
        lemma_ray_sound(b, p, p, d.0, d.1, 8);
        let a = slide_moves(b, p, diagonal, n - 1);
        let r = ray_moves(b, p, p, d.0, d.1, 8);
        assert forall|i: int| 0 <= i < (a + r).len() implies sound_move(b, p, #[trigger] (a + r)[i]) by {
            if i >= a.len() {
                assert((a + r)[i] == r[i - a.len()]);
            }
        }
    }
}

proof fn lemma_pawn_sound(b: ByteBoard, p: Point)
    requires
        valid_board(b),
        movable_at(b, p),
    ensures
        forall|i: int|
            0 <= i < pawn_moves(b, p).len() ==> sound_move(b, p, #[trigger] pawn_moves(b, p)[i]),
{
    let own = b.at_point(p).color_of();
    let d: int = if own == Color::WHITE { 1 } else { -1 };
    let e1 = p.plus(1, d);
    let e2 = p.plus(-1, d);
    let f1 = p.plus(0, d);
    let f2 = p.plus(0, 2 * d);
    if is_side(b.at_point(e1).color_of()) {
        lemma_not_out(b, e1);
    }
    if is_side(b.at_point(e2).color_of()) {
        lemma_not_out(b, e2);
    }
    if b.at_point(f1).rank_of() == Rank::NONE {
        lemma_not_out(b, f1);
        assert(valid_cell(b.at(f1.x as int, f1.y as int)));
    }
    if b.at_point(f2).rank_of() == Rank::NONE {
        lemma_not_out(b, f2);
        assert(valid_cell(b.at(f2.x as int, f2.y as int)));
    }
}

/// No generated move of a piece ends on a square of the piece's own color;
/// each starts at the piece and ends on the board.
pub proof fn lemma_piece_moves_sound(b: ByteBoard, p: Point)
    requires
        valid_board(b),
        movable_at(b, p),
    ensures
        forall|i: int|
            0 <= i < piece_moves(b, p).len() ==> sound_move(b, p, #[trigger] piece_moves(b, p)[i]),
{
    lemma_jump_sound(b, p, false, 8);
    lemma_jump_sound(b, p, true, 8);
    lemma_slide_sound(b, p, false, 4);
    lemma_slide_sound(b, p, true, 4);
    lemma_pawn_sound(b, p);
    if b.at_point(p).rank_of() == Rank::QUEEN {
        let a = slide_moves(b, p, false, 4);
        let r = slide_moves(b, p, true, 4);
        assert forall|i: int| 0 <= i < (a + r).len() implies sound_move(b, p, #[trigger] (a + r)[i]) by {
            if i >= a.len() {
                assert((a + r)[i] == r[i - a.len()]);
            }
        }
    }
}

/// Every move generated for the pieces at `pts` starts at one of them and
/// is sound for it.
pub proof fn lemma_list_moves_sound(b: ByteBoard, pts: Seq<Point>)
    requires
        valid_board(b),
        forall|i: int| 0 <= i < pts.len() ==> movable_at(b, #[trigger] pts[i]),
    ensures
        forall|i: int|
            0 <= i < list_moves(b, pts).len() ==> pts.contains(#[trigger] list_moves(b, pts)[i].from)
                && sound_move(b, list_moves(b, pts)[i].from, list_moves(b, pts)[i]),
    decreases pts.len(),
{
    if pts.len() > 0 {
        let init = pts.drop_last();
        assert forall|i: int| 0 <= i < init.len() implies movable_at(b, #[trigger] init[i]) by {
            assert(init[i] == pts[i]);
        }
        lemma_list_moves_sound(b, init);
        lemma_piece_moves_sound(b, pts.last());
        let a = list_moves(b, init);
        let r = piece_moves(b, pts.last());
        assert forall|i: int| 0 <= i < (a + r).len() implies pts.contains(#[trigger] (a + r)[i].from)
            && sound_move(b, (a + r)[i].from, (a + r)[i]) by {
            if i >= a.len() {
                assert((a + r)[i] == r[i - a.len()]);
                assert(pts[pts.len() - 1] == pts.last());
            } else {
                assert((a + r)[i] == a[i]);
                let j = choose|j: int| 0 <= j < init.len() && init[j] == a[i].from;
                assert(pts[j] == init[j]);
            }
        }
    }
}

/// The moves of the side to move can all be made, and none is an exchange.
pub proof fn lemma_friend_moves_makeable(s: BoardController)
    requires
        s.wf(),
    ensures
        forall|i: int|
            0 <= i < list_moves(s.board, s.friend_view().points()).len() ==> s.can_make(
                #[trigger] list_moves(s.board, s.friend_view().points())[i],
            ) && list_moves(s.board, s.friend_view().points())[i].m_type != MoveType::SWAP,
{
    let pts = s.friend_view().points();
    assert forall|i: int| 0 <= i < pts.len() implies movable_at(s.board, #[trigger] pts[i]) by {
        let p = pts[i];
        assert(valid_cell(s.board.at(p.x as int, p.y as int)));
    }
    lemma_list_moves_sound(s.board, pts);
    assert forall|i: int| 0 <= i < list_moves(s.board, pts).len() implies s.can_make(
        #[trigger] list_moves(s.board, pts)[i],
    ) && list_moves(s.board, pts)[i].m_type != MoveType::SWAP by {
        let m = list_moves(s.board, pts)[i];
        let j = choose|j: int| 0 <= j < pts.len() && pts[j] == m.from;
    }
}

/// A pawn's double push leaves its initial rank over two empty squares.
pub proof fn lemma_double_push(b: ByteBoard, p: Point, m: Move)
    requires
        pawn_moves(b, p).contains(m),
        m.to.y == p.y + 2 || m.to.y == p.y - 2,
        -4 <= p.y < 12,
    ensures
        (b.at_point(p).color_of() == Color::WHITE && p.y == 1 && m.to.y == p.y + 2) || (
        b.at_point(p).color_of() != Color::WHITE && p.y == 6 && m.to.y == p.y - 2),
        m.to.x == p.x,
        b.at_point(m.to).rank_of() == Rank::NONE,
        b.at_point(p.plus(0, (m.to.y - p.y) / 2)).rank_of() == Rank::NONE,
{
    let mv = pawn_moves(b, p);
    let i = choose|i: int| 0 <= i < mv.len() && mv[i] == m;
}

} // verus!
