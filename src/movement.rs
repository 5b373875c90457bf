//! Moves, the move list and the pseudo-legal move generator.

use vstd::prelude::*;
use crate::board::{ByteBoard, in_band, on_board};
use crate::figure::{Color, Figure, Rank, inverted, is_side};
use crate::figure_list::FigurePointList;
use crate::point::{ParseError, Point, is_square_text, parses_to};

verus! {

#[derive(Clone, Copy, Debug, PartialEq, Eq, Hash, Structural)]
pub enum MoveType {
    SIMPLE,
    SWAP,
    TRANSFORM,
}

#[derive(Clone, Copy, Debug, PartialEq, Eq, Hash, Structural)]
pub struct Move {
    pub from: Point,
    pub to: Point,
    pub m_type: MoveType,
}

impl Default for Move {
    fn default() -> (r: Move)
        ensures
            r == (Move {
                from: Point { x: 0, y: 0 },
                to: Point { x: 0, y: 0 },
                m_type: MoveType::SIMPLE,
            }),
    {
        Move { from: Point { x: 0, y: 0 }, to: Point { x: 0, y: 0 }, m_type: MoveType::SIMPLE }
    }
}

/// A step or a capture.
pub open spec fn simple(from: Point, to: Point) -> Move {
    Move { from, to, m_type: MoveType::SIMPLE }
}

impl Move {
    /// Parses four characters, `from` then `to`, each `[a-h][1-8]` in either
    /// case. The type is `SIMPLE`: the text does not carry it.
    pub fn from_string(s: &str) -> (r: Result<Move, ParseError>)
        ensures
            r.is_ok() <==> (s@.len() == 4 && is_square_text(s@.subrange(0, 2)) && is_square_text(
                s@.subrange(2, 4),
            )),
            r matches Ok(m) ==> parses_to(s@.subrange(0, 2), m.from) && parses_to(
                s@.subrange(2, 4),
                m.to,
            ) && m.m_type == MoveType::SIMPLE,
    {
        if s.unicode_len() != 4 {
            return Err(ParseError);
        }
        let from = Point::from_string(s.substring_char(0, 2))?;
        let to = Point::from_string(s.substring_char(2, 4))?;
        Ok(Move { from, to, m_type: MoveType::SIMPLE })
    }
}

/// The king's eight steps, in generation order.
pub open spec fn king_step(i: int) -> (int, int) {
    if i == 0 {
        (0, 1)
    } else if i == 1 {
        (1, 0)
    } else if i == 2 {
        (1, 1)
    } else if i == 3 {
        (0, -1)
    } else if i == 4 {
        (-1, 0)
    } else if i == 5 {
        (-1, -1)
    } else if i == 6 {
        (-1, 1)
    } else {
        (1, -1)
    }
}

/// The knight's eight jumps, in generation order.
pub open spec fn knight_step(i: int) -> (int, int) {
    if i == 0 {
        (1, 2)
    } else if i == 1 {
        (2, 1)
    } else if i == 2 {
        (-1, 2)
    } else if i == 3 {
        (2, -1)
    } else if i == 4 {
        (1, -2)
    } else if i == 5 {
        (-2, 1)
    } else if i == 6 {
        (-1, -2)
    } else {
        (-2, -1)
    }
}

/// The rook's four directions, in generation order.
pub open spec fn rook_dir(i: int) -> (int, int) {
    if i == 0 {
        (0, 1)
    } else if i == 1 {
        (1, 0)
    } else if i == 2 {
        (-1, 0)
    } else {
        (0, -1)
    }
}

/// The bishop's four directions, in generation order.
pub open spec fn bishop_dir(i: int) -> (int, int) {
    if i == 0 {
        (1, 1)
    } else if i == 1 {
        (-1, 1)
    } else if i == 2 {
        (1, -1)
    } else {
        (-1, -1)
    }
}

pub open spec fn jump(knight: bool, i: int) -> (int, int) {
    if knight {
        knight_step(i)
    } else {
        king_step(i)
    }
}

pub open spec fn dir(diagonal: bool, i: int) -> (int, int) {
    if diagonal {
        bishop_dir(i)
    } else {
        rook_dir(i)
    }
}

fn jump_exec(knight: bool, i: usize) -> (r: (i8, i8))
    requires
        i < 8,
    ensures
        (r.0 as int, r.1 as int) == jump(knight, i as int),
{
    if knight {
        match i {
            0 => (1, 2),
            1 => (2, 1),
            2 => (-1, 2),
            3 => (2, -1),
            4 => (1, -2),
            5 => (-2, 1),
            6 => (-1, -2),
            _ => (-2, -1),
        }
    } else {
        match i {
            0 => (0, 1),
            1 => (1, 0),
            2 => (1, 1),
            3 => (0, -1),
            4 => (-1, 0),
            5 => (-1, -1),
            6 => (-1, 1),
            _ => (1, -1),
        }
    }
}

fn dir_exec(diagonal: bool, i: usize) -> (r: (i8, i8))
    requires
        i < 4,
    ensures
        (r.0 as int, r.1 as int) == dir(diagonal, i as int),
{
    if diagonal {
        match i {
            0 => (1, 1),
            1 => (-1, 1),
            2 => (1, -1),
            _ => (-1, -1),
        }
    } else {
        match i {
            0 => (0, 1),
            1 => (1, 0),
            2 => (-1, 0),
            _ => (0, -1),
        }
    }
}

/// The first `n` single-step moves (king or knight) from `p`: each target
/// that is on the board and not of the mover's color.
pub open spec fn jump_moves(b: ByteBoard, p: Point, knight: bool, n: int) -> Seq<Move>
    decreases n,
{
    if n <= 0 {
        Seq::empty()
    } else {
        let d = jump(knight, n - 1);
        let q = p.plus(d.0, d.1);
        jump_moves(b, p, knight, n - 1) + if b.at_point(q).rank_of() != Rank::OUT
            && b.at_point(q).color_of() != b.at_point(p).color_of() {
            seq![simple(p, q)]
        } else {
            Seq::empty()
        }
    }
}

/// The moves along one ray from `origin`, continuing after `cur`: empty
/// squares, then a capture of the first enemy; a friend or the border ends it.
pub open spec fn ray_moves(b: ByteBoard, origin: Point, cur: Point, dx: int, dy: int, fuel: nat) -> Seq<
    Move,
>
    decreases fuel,
{
    if fuel == 0 {
        Seq::empty()
    } else {
        let own = b.at_point(origin).color_of();
        let q = cur.plus(dx, dy);
        let f = b.at_point(q);
        if f.rank_of() == Rank::OUT || f.color_of() == own {
            Seq::empty()
        } else if f.color_of() == inverted(own) {
            seq![simple(origin, q)]
        } else {
            seq![simple(origin, q)] + ray_moves(b, origin, q, dx, dy, (fuel - 1) as nat)
        }
    }
}

/// The sliding moves from `p` along the first `n` rook or bishop directions.
pub open spec fn slide_moves(b: ByteBoard, p: Point, diagonal: bool, n: int) -> Seq<Move>
    decreases n,
{
    if n <= 0 {
        Seq::empty()
    } else {
        let d = dir(diagonal, n - 1);
        slide_moves(b, p, diagonal, n - 1) + ray_moves(b, p, p, d.0, d.1, 8)
    }
}

/// Pawn moves: the two diagonal captures, the push (a promotion on the last
/// rank), and the double push from the initial rank over two empty squares.
pub open spec fn pawn_moves(b: ByteBoard, p: Point) -> Seq<Move> {
    let own = b.at_point(p).color_of();
    let d: int = if own == Color::WHITE { 1 } else { -1 };
    let eat = if own == Color::WHITE { Color::BLACK } else { Color::WHITE };
    let e1 = p.plus(1, d);
    let e2 = p.plus(-1, d);
    let f1 = p.plus(0, d);
    let f2 = p.plus(0, 2 * d);
    let a = if b.at_point(e1).color_of() == eat { seq![simple(p, e1)] } else { Seq::empty() };
    let c = if b.at_point(e2).color_of() == eat { seq![simple(p, e2)] } else { Seq::empty() };
    let push = if b.at_point(f1).rank_of() == Rank::NONE {
        seq![
            Move {
                from: p,
                to: f1,
                m_type: if f1.y == 7 || f1.y == 0 { MoveType::TRANSFORM } else { MoveType::SIMPLE },
            },
        ] + if ((p.y == 1 && d == 1) || (p.y == 6 && d == -1)) && b.at_point(f2).rank_of()
            == Rank::NONE {
            seq![simple(p, f2)]
        } else {
            Seq::empty()
        }
    } else {
        Seq::empty()
    };
    a + c + push
}

/// The pseudo-legal moves of the figure at `p`, in generation order.
pub open spec fn piece_moves(b: ByteBoard, p: Point) -> Seq<Move> {
    match b.at_point(p).rank_of() {
        Rank::KING => jump_moves(b, p, false, 8),
        Rank::QUEEN => slide_moves(b, p, false, 4) + slide_moves(b, p, true, 4),
        Rank::ROOK => slide_moves(b, p, false, 4),
        Rank::BISHOP => slide_moves(b, p, true, 4),
        Rank::KNIGHT => jump_moves(b, p, true, 8),
        Rank::PAWN => pawn_moves(b, p),
        _ => Seq::empty(),
    }
}

/// The moves of the figures at `pts`, one figure after another.
pub open spec fn list_moves(b: ByteBoard, pts: Seq<Point>) -> Seq<Move>
    decreases pts.len(),
{
    if pts.len() == 0 {
        Seq::empty()
    } else {
        list_moves(b, pts.drop_last()) + piece_moves(b, pts.last())
    }
}

/// A figure that can move: a piece of a side, on the board.
pub open spec fn is_piece(f: Figure) -> bool {
    &&& is_side(f.color_of())
    &&& f.rank_of() != Rank::NONE
    &&& f.rank_of() != Rank::OUT
}

pub open spec fn movable_at(b: ByteBoard, p: Point) -> bool {
    &&& on_board(p.x as int, p.y as int)
    &&& is_piece(b.at_point(p))
}

/// The ordering key of a move: positional gain of the mover plus the
/// weight of what stands on the target.
pub open spec fn move_key(b: ByteBoard, m: Move) -> int {
    let f = b.at_point(m.from);
    crate::score::positional(m.to, f) - crate::score::positional(m.from, f) + b.at_point(
        m.to,
    ).weight_of()
}

/// `m` inserted into `s` after every element whose key is at least its own
/// counted from the back: one step of a stable descending insertion sort.
pub open spec fn insert_desc(b: ByteBoard, s: Seq<Move>, m: Move) -> Seq<Move>
    decreases s.len(),
{
    if s.len() == 0 {
        seq![m]
    } else if move_key(b, s.last()) >= move_key(b, m) {
        s.push(m)
    } else {
        insert_desc(b, s.drop_last(), m).push(s.last())
    }
}

/// `s` sorted by descending key; equal keys keep their order.
pub open spec fn sorted_moves(b: ByteBoard, s: Seq<Move>) -> Seq<Move>
    decreases s.len(),
{
    if s.len() == 0 {
        Seq::empty()
    } else {
        insert_desc(b, sorted_moves(b, s.drop_last()), s.last())
    }
}

/// Inserting adds one element and keeps the rest.
pub proof fn lemma_insert_desc(b: ByteBoard, s: Seq<Move>, m: Move)
    ensures
        insert_desc(b, s, m).to_multiset() == s.to_multiset().insert(m),
        insert_desc(b, s, m).len() == s.len() + 1,
    decreases s.len(),
{
    broadcast use vstd::seq_lib::group_to_multiset_ensures;

    if s.len() > 0 {
        lemma_insert_desc(b, s.drop_last(), m);
        assert(s =~= s.drop_last().push(s.last()));
        if move_key(b, s.last()) < move_key(b, m) {
            assert(insert_desc(b, s, m).to_multiset() =~= s.to_multiset().insert(m));
        }
    } else {
        assert(seq![m] =~= Seq::<Move>::empty().push(m));
    }
}

/// Sorting permutes: the same moves, each as often.
pub proof fn lemma_sorted_moves_permutes(b: ByteBoard, s: Seq<Move>)
    ensures
        sorted_moves(b, s).to_multiset() == s.to_multiset(),
        sorted_moves(b, s).len() == s.len(),
        forall|m: Move| sorted_moves(b, s).contains(m) ==> s.contains(m),
    decreases s.len(),
{
    broadcast use vstd::seq_lib::group_to_multiset_ensures;

    if s.len() > 0 {
        lemma_sorted_moves_permutes(b, s.drop_last());
        lemma_insert_desc(b, sorted_moves(b, s.drop_last()), s.last());
        assert(s =~= s.drop_last().push(s.last()));
    }
    assert forall|m: Move| sorted_moves(b, s).contains(m) implies s.contains(m) by {
        assert(sorted_moves(b, s).to_multiset().count(m) > 0);
    }
}

/// Moves whose key is `v`.
pub open spec fn key_is(b: ByteBoard, v: int) -> spec_fn(Move) -> bool {
    |m: Move| move_key(b, m) == v
}

/// Keys never increase along `s`.
pub open spec fn descending(b: ByteBoard, s: Seq<Move>) -> bool {
    forall|i: int, j: int| 0 <= i < j < s.len() ==> move_key(b, #[trigger] s[i]) >= move_key(b, #[trigger] s[j])
}

/// Filtering a sequence with one more element at the end.
proof fn lemma_filter_push(s: Seq<Move>, m: Move, f: spec_fn(Move) -> bool)
    ensures
        s.push(m).filter(f) == s.filter(f) + if f(m) {
            seq![m]
        } else {
            Seq::<Move>::empty()
        },
{
    let t = s.push(m);
    s.lemma_filter_push(m, f);
    assert(t.filter(f) =~= s.filter(f) + if f(m) {
        seq![m]
    } else {
        Seq::<Move>::empty()
    });
}

proof fn lemma_insert_desc_filter(b: ByteBoard, s: Seq<Move>, m: Move, v: int)
    ensures
        insert_desc(b, s, m).filter(key_is(b, v)) == s.filter(key_is(b, v)) + if move_key(b, m) == v {
            seq![m]
        } else {
            Seq::<Move>::empty()
        },
    decreases s.len(),
{
    let f = key_is(b, v);
    let t = insert_desc(b, s, m);
    if s.len() == 0 {
        assert(t == s.push(m)) by {
            assert(seq![m] =~= s.push(m));
        }
        lemma_filter_push(s, m, f);
    } else if move_key(b, s.last()) >= move_key(b, m) {
        lemma_filter_push(s, m, f);
    } else {
        let s1 = s.drop_last();
        lemma_insert_desc_filter(b, s1, m, v);
        lemma_filter_push(insert_desc(b, s1, m), s.last(), f);
        lemma_filter_push(s1, s.last(), f);
        assert(s =~= s1.push(s.last()));
        assert(t.filter(f) =~= s.filter(f) + if move_key(b, m) == v {
            seq![m]
        } else {
            Seq::<Move>::empty()
        });
    }
}

proof fn lemma_insert_desc_sorted(b: ByteBoard, s: Seq<Move>, m: Move)
    requires
        descending(b, s),
    ensures
        descending(b, insert_desc(b, s, m)),
    decreases s.len(),
{
    broadcast use vstd::seq_lib::group_to_multiset_ensures;

    if s.len() > 0 && move_key(b, s.last()) < move_key(b, m) {
        let s1 = s.drop_last();
        lemma_insert_desc_sorted(b, s1, m);
        lemma_insert_desc(b, s1, m);
        let u = insert_desc(b, s1, m);
        assert forall|i: int| 0 <= i < u.len() implies move_key(b, #[trigger] u[i]) >= move_key(
            b,
            s.last(),
        ) by {
            assert(u.to_multiset().count(u[i]) > 0);
            if u[i] != m {
                assert(s1.to_multiset().count(u[i]) > 0);
                assert(s1.contains(u[i]));
                let k = choose|k: int| 0 <= k < s1.len() && s1[k] == u[i];
                assert(s[k] == u[i]);
            }
        }
        let t = insert_desc(b, s, m);
        assert forall|i: int, j: int| 0 <= i < j < t.len() implies move_key(b, #[trigger] t[i])
            >= move_key(b, #[trigger] t[j]) by {
            if j == t.len() - 1 {
                assert(t[j] == s.last());
                assert(t[i] == u[i]);
            } else {
                assert(t[i] == u[i] && t[j] == u[j]);
            }
        }
    }
}

/// The positional sort is a stable permutation: the same moves, keys
/// descending, and the moves of any one key in their original order.
pub proof fn lemma_sorted_moves_stable(b: ByteBoard, s: Seq<Move>)
    ensures
        sorted_moves(b, s).to_multiset() == s.to_multiset(),
        descending(b, sorted_moves(b, s)),
        forall|v: int| #[trigger] sorted_moves(b, s).filter(key_is(b, v)) == s.filter(key_is(b, v)),
    decreases s.len(),
{
    lemma_sorted_moves_permutes(b, s);
    if s.len() > 0 {
        let s1 = s.drop_last();
        lemma_sorted_moves_stable(b, s1);
        lemma_insert_desc_sorted(b, sorted_moves(b, s1), s.last());
        assert forall|v: int| #[trigger] sorted_moves(b, s).filter(key_is(b, v)) == s.filter(key_is(b, v)) by {
            lemma_insert_desc_filter(b, sorted_moves(b, s1), s.last(), v);
            lemma_filter_push(s1, s.last(), key_is(b, v));
            assert(s =~= s1.push(s.last()));
        }
    } else {
        assert forall|v: int| #[trigger] sorted_moves(b, s).filter(key_is(b, v)) == s.filter(key_is(b, v)) by {
            assert(sorted_moves(b, s) =~= s);
        }
    }
}

/// Both squares of `m` can be looked up on a board.
pub open spec fn keyable(m: Move) -> bool {
    in_band(m.from.x as int, m.from.y as int) && in_band(m.to.x as int, m.to.y as int)
}

/// The moves generated for a position, in generation (or sorted) order.
pub struct MoveList {
    pub moves: Vec<Move>,
}

impl Default for MoveList {
    fn default() -> (r: MoveList)
        ensures
            r.moves@ == Seq::<Move>::empty(),
    {
        MoveList { moves: Vec::new() }
    }
}

impl MoveList {
    /// The moves that `generator` produces for its side.
    pub fn new(generator: &MoveGenerator) -> (r: MoveList)
        requires
            generator.ready(),
        ensures
            r.moves@ == list_moves(*generator.board, generator.figures.points()),
    {
        let mut move_list = MoveList::default();
        generator.fill(&mut move_list);
        move_list
    }

    pub fn push(&mut self, m: Move)
        ensures
            final(self).moves@ == old(self).moves@.push(m),
    {
        self.moves.push(m);
    }

    pub fn len(&self) -> (r: usize)
        ensures
            r == self.moves@.len(),
    {
        self.moves.len()
    }

    pub fn clear(&mut self)
        ensures
            final(self).moves@ == Seq::<Move>::empty(),
    {
        self.moves.clear();
    }

    /// Orders the moves by descending key, `positional_fn(to) -
    /// positional_fn(from)` for the mover plus the weight on `to`, keeping
    /// the list order among equal keys.
    pub fn sort_by(&mut self, board: &ByteBoard)
        requires
            forall|i: int| 0 <= i < old(self).moves@.len() ==> keyable(#[trigger] old(self).moves@[i]),
        ensures
            final(self).moves@ == sorted_moves(*board, old(self).moves@),
    {
        let ghost orig = self.moves@;
        let n = self.moves.len();
        let mut keys: Vec<i32> = Vec::new();
        let mut k: usize = 0;
        while k < n
            invariant
                n == self.moves@.len(),
                self.moves@ == orig,
                forall|i: int| 0 <= i < n ==> keyable(#[trigger] orig[i]),
                0 <= k <= n,
                keys@.len() == k,
                forall|j: int| 0 <= j < k ==> #[trigger] keys@[j] as int == move_key(*board, orig[j]),
            decreases n - k,
        {
            let m = self.moves[k];
            proof {
                assert(keyable(orig[k as int]));
            }
            let f = *board.point(m.from);
            let key = crate::score::simple_positional_fn(m.to, f) - crate::score::simple_positional_fn(
                m.from,
                f,
            ) + board.point(m.to).weight();
            keys.push(key);
            k += 1;
        }
        let mut i: usize = 0;
        assert(self.moves@.subrange(0, 0) =~= sorted_moves(*board, orig.subrange(0, 0)));
        assert(self.moves@.subrange(0, n as int) =~= orig.subrange(0, n as int));
        while i < n
            invariant
                n == self.moves@.len(),
                n == orig.len(),
                keys@.len() == n,
                0 <= i <= n,
                self.moves@.subrange(0, i as int) == sorted_moves(*board, orig.subrange(0, i as int)),
                self.moves@.subrange(i as int, n as int) == orig.subrange(i as int, n as int),
                forall|j: int| 0 <= j < n ==> #[trigger] keys@[j] as int == move_key(*board, self.moves@[j]),
            decreases n - i,
        {
            let ghost p = self.moves@.subrange(0, i as int);
            let ghost x = orig[i as int];
            proof {
                assert(self.moves@[i as int] == self.moves@.subrange(i as int, n as int)[0]);
                assert(orig.subrange(0, i + 1).drop_last() =~= orig.subrange(0, i as int));
                assert(orig.subrange(0, i + 1).last() == x);
            }
            let mut j: usize = i;
            proof {
                assert(p.subrange(0, i as int) =~= p);
                assert(p.subrange(i as int, i as int) =~= Seq::<Move>::empty());
                assert(self.moves@.subrange(0, i + 1) =~= p.subrange(0, i as int).push(x) + p.subrange(
                    i as int,
                    i as int,
                ));
                assert(insert_desc(*board, p, x) =~= insert_desc(*board, p.subrange(0, i as int), x)
                    + p.subrange(i as int, i as int));
                assert forall|t: int| i + 1 <= t < n implies self.moves@[t] == orig[t] by {
                    assert(self.moves@.subrange(i as int, n as int)[t - i] == orig.subrange(
                        i as int,
                        n as int,
                    )[t - i]);
                }
                assert(self.moves@.subrange(i + 1, n as int) =~= orig.subrange(i + 1, n as int));
            }
            while j > 0 && keys[j - 1] < keys[j]
                invariant
                    n == self.moves@.len(),
                    n == orig.len(),
                    keys@.len() == n,
                    0 <= j <= i < n,
                    p.len() == i,
                    self.moves@.subrange(0, i + 1) == p.subrange(0, j as int).push(x) + p.subrange(
                        j as int,
                        i as int,
                    ),
                    insert_desc(*board, p, x) == insert_desc(*board, p.subrange(0, j as int), x) + p.subrange(
                        j as int,
                        i as int,
                    ),
                    self.moves@.subrange(i + 1, n as int) == orig.subrange(i + 1, n as int),
                    forall|t: int| 0 <= t < n ==> #[trigger] keys@[t] as int == move_key(*board, self.moves@[t]),
                decreases j,
            {
                let ghost before = self.moves@;
                let ghost kb = keys@;
                let a = self.moves[j - 1];
                let c = self.moves[j];
                self.moves.set(j - 1, c);
                self.moves.set(j, a);
                let ka = keys[j - 1];
                let kc = keys[j];
                keys.set(j - 1, kc);
                keys.set(j, ka);
                proof {
                    let q = p.subrange(0, j as int);
                    assert(before[j as int] == x) by {
                        assert(before.subrange(0, i + 1)[j as int] == x);
                    }
                    assert(before[j - 1] == p[j - 1]) by {
                        assert(before.subrange(0, i + 1)[j - 1] == p[j - 1]);
                    }
                    assert(q.drop_last() =~= p.subrange(0, j - 1));
                    assert(q.last() == p[j - 1]);
                    assert(kb[j - 1] < kb[j as int]);
                    assert(move_key(*board, p[j - 1]) < move_key(*board, x));
                    assert(insert_desc(*board, q, x) == insert_desc(*board, q.drop_last(), x).push(
                        q.last(),
                    ));
                    let a0 = insert_desc(*board, p.subrange(0, j - 1), x);
                    assert(p.subrange(j - 1, i as int) =~= seq![p[j - 1]] + p.subrange(j as int, i as int));
                    assert(a0.push(p[j - 1]) + p.subrange(j as int, i as int) =~= a0 + (seq![p[j - 1]]
                        + p.subrange(j as int, i as int)));
                    assert(insert_desc(*board, p.subrange(0, j as int), x) + p.subrange(j as int, i as int)
                        =~= insert_desc(*board, p.subrange(0, j - 1), x) + p.subrange(j - 1, i as int));
                    let target = p.subrange(0, j - 1).push(x) + p.subrange(j - 1, i as int);
                    let old_pre = p.subrange(0, j as int).push(x) + p.subrange(j as int, i as int);
                    assert forall|t: int| 0 <= t < i + 1 implies #[trigger] self.moves@[t] == target[t] by {
                        assert(before.subrange(0, i + 1)[t] == old_pre[t]);
                        if t < j - 1 {
                            assert(old_pre[t] == p[t]);
                        } else if t > j {
                            assert(old_pre[t] == p[t - 1]);
                        }
                    }
                    assert(self.moves@.subrange(0, i + 1) =~= target);
                    assert(self.moves@.subrange(i + 1, n as int) =~= before.subrange(i + 1, n as int));
                }
                j -= 1;
            }
            proof {
                let q = p.subrange(0, j as int);
                if j > 0 {
                    assert(self.moves@[j as int] == x) by {
                        assert(self.moves@.subrange(0, i + 1)[j as int] == x);
                    }
                    assert(self.moves@[j - 1] == p[j - 1]) by {
                        assert(self.moves@.subrange(0, i + 1)[j - 1] == p[j - 1]);
                    }
                    assert(q.last() == p[j - 1]);
                }
                assert(insert_desc(*board, q, x) == q.push(x));
                assert(self.moves@.subrange(0, i + 1) =~= insert_desc(*board, p, x));
                assert(self.moves@.subrange(i + 1, n as int) =~= orig.subrange(i + 1, n as int));
            }
            i += 1;
        }
        assert(self.moves@ =~= self.moves@.subrange(0, n as int));
        assert(orig =~= orig.subrange(0, n as int));
    }

    /// The moves, in list order.
    pub fn iter(&self) -> (r: &[Move])
        ensures
            r@ == self.moves@,
    {
        self.moves.as_slice()
    }
}

pub struct MoveGenerator<'a> {
    pub board: &'a ByteBoard,
    pub figures: &'a FigurePointList,
}

impl<'a> MoveGenerator<'a> {
    /// The board is guarded and every listed square holds a piece.
    pub open spec fn ready(&self) -> bool {
        &&& self.board.guarded()
        &&& self.figures.wf()
        &&& forall|i: int|
            0 <= i < self.figures.points().len() ==> movable_at(
                *self.board,
                #[trigger] self.figures.points()[i],
            )
    }

    pub fn new(board: &'a ByteBoard, figures: &'a FigurePointList) -> (r: MoveGenerator<'a>)
        ensures
            r.board == board,
            r.figures == figures,
    {
        MoveGenerator { board, figures }
    }

    /// Clears the list, then appends the moves of every listed figure, in
    /// the index's order.
    pub fn fill(&self, move_list: &mut MoveList)
        requires
            self.ready(),
        ensures
            final(move_list).moves@ == list_moves(*self.board, self.figures.points()),
    {
        move_list.clear();
        let pts = self.figures.iter();
        let mut i: usize = 0;
        while i < pts.len()
            invariant
                self.ready(),
                pts@ == self.figures.points(),
                0 <= i <= pts@.len(),
                move_list.moves@ == list_moves(*self.board, pts@.subrange(0, i as int)),
            decreases pts@.len() - i,
        {
            proof {
                assert(pts@.subrange(0, i + 1).drop_last() =~= pts@.subrange(0, i as int));
            }
            self.fill_for_figure(pts[i], move_list);
            i += 1;
        }
        assert(pts@.subrange(0, pts@.len() as int) =~= pts@);
    }

    /// Appends the moves of the figure at `p`.
    pub fn fill_for_figure(&self, p: Point, move_list: &mut MoveList)
        requires
            self.board.guarded(),
            movable_at(*self.board, p),
        ensures
            final(move_list).moves@ == old(move_list).moves@ + piece_moves(*self.board, p),
    {
        let f = *self.board.point(p);
        match f.rank() {
            Rank::KING => {
                self.generate_moves(p, false, move_list);
            },
            Rank::QUEEN => {
                self.generate_directions_moves(p, false, move_list);
                self.generate_directions_moves(p, true, move_list);
                assert(move_list.moves@ =~= old(move_list).moves@ + piece_moves(*self.board, p));
            },
            Rank::ROOK => {
                self.generate_directions_moves(p, false, move_list);
            },
            Rank::BISHOP => {
                self.generate_directions_moves(p, true, move_list);
            },
            Rank::KNIGHT => {
                self.generate_moves(p, true, move_list);
            },
            Rank::PAWN => {
                self.generate_pawn_moves(p, move_list);
            },
            _ => {},
        }
    }

    fn generate_pawn_moves(&self, p: Point, move_list: &mut MoveList)
        requires
            self.board.guarded(),
            movable_at(*self.board, p),
            self.board.at_point(p).rank_of() == Rank::PAWN,
        ensures
            final(move_list).moves@ == old(move_list).moves@ + pawn_moves(*self.board, p),
    {
        let f = *self.board.point(p);
        let white = f.color() == Color::WHITE;
        let mult: i8 = if white {
            1
        } else {
            -1
        };
        let eat_color = if white {
            Color::BLACK
        } else {
            Color::WHITE
        };
        let eat_p = p.add(Point::new(1, mult));
        if self.board.point(eat_p).color() == eat_color {
            move_list.push(Move { from: p, to: eat_p, m_type: MoveType::SIMPLE });
        }
        let eat_p = p.add(Point::new(-1, mult));
        if self.board.point(eat_p).color() == eat_color {
            move_list.push(Move { from: p, to: eat_p, m_type: MoveType::SIMPLE });
        }
        let step_p = p.add(Point::new(0, mult));
        if self.board.point(step_p).rank() == Rank::NONE {
            if step_p.y() == 7 || step_p.y() == 0 {
                move_list.push(Move { from: p, to: step_p, m_type: MoveType::TRANSFORM });
            } else {
                move_list.push(Move { from: p, to: step_p, m_type: MoveType::SIMPLE });
            }
            if p.y() == 1 && mult == 1 || p.y() == 6 && mult == -1 {
                let jump_p = p.add(Point::new(0, 2 * mult));
                if self.board.point(jump_p).rank() == Rank::NONE {
                    move_list.push(Move { from: p, to: jump_p, m_type: MoveType::SIMPLE });
                }
            }
        }
        assert(move_list.moves@ =~= old(move_list).moves@ + pawn_moves(*self.board, p));
    }

    /// The point one step `(dx, dy)` from `p`, unless it is off the board.
    pub fn move_if_not_out(&self, p: Point, dx: i8, dy: i8) -> (r: Option<Point>)
        requires
            in_band(p.x + dx, p.y + dy),
        ensures
            r == (if self.board.at_point(p.plus(dx as int, dy as int)).rank_of() != Rank::OUT {
                Some(p.plus(dx as int, dy as int))
            } else {
                None
            }),
    {
        let p_move = p.add(Point::new(dx, dy));
        if self.board.point(p_move).rank() != Rank::OUT {
            Some(p_move)
        } else {
            None
        }
    }

    /// King or knight moves from `p`.
    fn generate_moves(&self, p: Point, knight: bool, move_list: &mut MoveList)
        requires
            self.board.guarded(),
            movable_at(*self.board, p),
        ensures
            final(move_list).moves@ == old(move_list).moves@ + jump_moves(*self.board, p, knight, 8),
    {
        let f_color = self.board.point(p).color();
        let mut i: usize = 0;
        while i < 8
            invariant
                self.board.guarded(),
                movable_at(*self.board, p),
                f_color == self.board.at_point(p).color_of(),
                0 <= i <= 8,
                move_list.moves@ == old(move_list).moves@ + jump_moves(
                    *self.board,
                    p,
                    knight,
                    i as int,
                ),
            decreases 8 - i,
        {
            let (dx, dy) = jump_exec(knight, i);
            match self.move_if_not_out(p, dx, dy) {
                Some(to_p) => {
                    if f_color != self.board.point(to_p).color() {
                        move_list.push(Move { from: p, to: to_p, m_type: MoveType::SIMPLE });
                    }
                },
                None => {},
            }
            assert(move_list.moves@ =~= old(move_list).moves@ + jump_moves(
                *self.board,
                p,
                knight,
                i + 1,
            ));
            i += 1;
        }
    }

    /// Rook or bishop moves from `p`: each ray up to a blocker.
    fn generate_directions_moves(&self, p: Point, diagonal: bool, move_list: &mut MoveList)
        requires
            self.board.guarded(),
            movable_at(*self.board, p),
        ensures
            final(move_list).moves@ == old(move_list).moves@ + slide_moves(
                *self.board,
                p,
                diagonal,
                4,
            ),
    {
        let f_color = self.board.point(p).color();
        let enemy_color = f_color.invert();
        let mut i: usize = 0;
        while i < 4
            invariant
                self.board.guarded(),
                movable_at(*self.board, p),
                f_color == self.board.at_point(p).color_of(),
                enemy_color == inverted(f_color),
                0 <= i <= 4,
                move_list.moves@ == old(move_list).moves@ + slide_moves(
                    *self.board,
                    p,
                    diagonal,
                    i as int,
                ),
            decreases 4 - i,
        {
            let (dx, dy) = dir_exec(diagonal, i);
            let ghost start = move_list.moves@;
            let mut to_p = p;
            let ghost mut steps: int = 0;
            loop
                invariant_except_break
                    move_list.moves@ + ray_moves(
                        *self.board,
                        p,
                        to_p,
                        dx as int,
                        dy as int,
                        (8 - steps) as nat,
                    ) == start + ray_moves(*self.board, p, p, dx as int, dy as int, 8),
                invariant
                    self.board.guarded(),
                    movable_at(*self.board, p),
                    f_color == self.board.at_point(p).color_of(),
                    enemy_color == inverted(f_color),
                    (dx as int, dy as int) == dir(diagonal, i as int),
                    0 <= steps <= 7,
                    on_board(to_p.x as int, to_p.y as int),
                    dx == 1 ==> to_p.x == p.x + steps,
                    dx == -1 ==> to_p.x == p.x - steps,
                    dx == 0 ==> to_p.x == p.x,
                    dy == 1 ==> to_p.y == p.y + steps,
                    dy == -1 ==> to_p.y == p.y - steps,
                    dy == 0 ==> to_p.y == p.y,
                ensures
                    move_list.moves@ == start + ray_moves(*self.board, p, p, dx as int, dy as int, 8),
                decreases 8 - steps,
            {
                let ghost before = move_list.moves@;
                match self.move_if_not_out(to_p, dx, dy) {
                    None => {
                        assert(before + ray_moves(*self.board, p, to_p, dx as int, dy as int, (8 - steps) as nat) =~= before);
                        break ;
                    },
                    Some(new_to_p) => {
                        let to_color = self.board.point(new_to_p).color();
                        if to_color == f_color {
                            assert(before + ray_moves(*self.board, p, to_p, dx as int, dy as int, (8 - steps) as nat) =~= before);
                            break ;
                        }
                        move_list.push(Move { from: p, to: new_to_p, m_type: MoveType::SIMPLE });
                        if to_color == enemy_color {
                            assert(before + ray_moves(*self.board, p, to_p, dx as int, dy as int, (8 - steps) as nat) =~= move_list.moves@);
                            break ;
                        }
                        proof {
                            assert(before + ray_moves(*self.board, p, to_p, dx as int, dy as int, (8 - steps) as nat) =~= move_list.moves@ + ray_moves(*self.board, p, new_to_p, dx as int, dy as int, (8 - (steps + 1)) as nat));
                            steps = steps + 1;
                        }
                        to_p = new_to_p;
                    },
                }
            }
            assert(move_list.moves@ =~= old(move_list).moves@ + slide_moves(
                *self.board,
                p,
                diagonal,
                i + 1,
            ));
            i += 1;
        }
    }
}

} // verus!
