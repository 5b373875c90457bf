//! The per-color figure index: the squares a side occupies, kept as a singly
//! linked chain through a fixed arena of sixteen nodes. A cursor names one
//! link of the chain, so a node can be rewritten, unlinked and relinked in
//! constant time while the board is searched.

use vstd::prelude::*;
use crate::board::ByteBoard;
use crate::figure::{Color, Rank};
use crate::point::Point;

verus! {

/// Number of nodes in an index's arena: one per possible piece of a side.
pub const CAPACITY: usize = 16;

/// The arena index that stands for "no node".
pub const NO_NODE: usize = 16;

#[derive(Clone, Copy, Debug, PartialEq, Eq, Structural)]
pub struct PointLinkedNode {
    pub point: Point,
    /// Arena index of the next node of the chain, or `NO_NODE`.
    pub next: usize,
}

impl PointLinkedNode {
    pub fn new() -> (r: PointLinkedNode)
        ensures
            r.point == (Point { x: 0, y: 0 }),
            r.next == NO_NODE,
    {
        PointLinkedNode { point: Point { x: 0, y: 0 }, next: NO_NODE }
    }
}

/// A link of the chain: the node before it (or `NO_NODE` at the head) and
/// the node itself (or `NO_NODE` for a cursor that names nothing).
#[derive(Clone, Copy, Debug, PartialEq, Eq, Structural)]
pub struct LinkedNodeCursor {
    pub prev: usize,
    pub cur: usize,
}

impl Default for LinkedNodeCursor {
    fn default() -> (r: LinkedNodeCursor)
        ensures
            r.prev == NO_NODE,
            r.cur == NO_NODE,
    {
        LinkedNodeCursor { prev: NO_NODE, cur: NO_NODE }
    }
}

pub struct FigurePointList {
    pub nodes: [PointLinkedNode; 16],
    /// Arena index of the head of the chain, or `NO_NODE`.
    pub first: usize,
    /// The arena indexes of the chain, head first.
    pub order: Ghost<Seq<usize>>,
}

/// The chain `order` read through `nodes`: what an index lists.
pub open spec fn chain_points(nodes: Seq<PointLinkedNode>, order: Seq<usize>) -> Seq<Point> {
    Seq::new(order.len(), |i: int| nodes[order[i] as int].point)
}

/// Weight classes, heaviest first: king, queen, rook, bishop, knight, pawn;
/// class 6 holds what weighs nothing.
pub open spec fn rank_class(r: Rank) -> int {
    match r {
        Rank::KING => 0,
        Rank::QUEEN => 1,
        Rank::ROOK => 2,
        Rank::BISHOP => 3,
        Rank::KNIGHT => 4,
        Rank::PAWN => 5,
        _ => 6,
    }
}

fn rank_class_code(r: Rank) -> (k: u8)
    ensures
        k as int == rank_class(r),
{
    match r {
        Rank::KING => 0,
        Rank::QUEEN => 1,
        Rank::ROOK => 2,
        Rank::BISHOP => 3,
        Rank::KNIGHT => 4,
        Rank::PAWN => 5,
        _ => 6,
    }
}

/// The `i`-th playable cell in scan order: `x`-major, `y`-minor.
pub open spec fn scan_point(i: int) -> Point {
    Point { x: (i / 8) as i8, y: (i % 8) as i8 }
}

/// Among the first `n` cells in scan order, those holding a figure of color
/// `c` and weight class `k`.
pub open spec fn class_cells(board: ByteBoard, c: Color, k: int, n: int) -> Seq<Point>
    decreases n,
{
    if n <= 0 {
        Seq::empty()
    } else {
        let s = class_cells(board, c, k, n - 1);
        let p = scan_point(n - 1);
        let f = board.at_point(p);
        if f.color_of() == c && rank_class(f.rank_of()) == k {
            s.push(p)
        } else {
            s
        }
    }
}

/// The cells of color `c` in the first `k` weight classes, class by class.
pub open spec fn fill_order_upto(board: ByteBoard, c: Color, k: int) -> Seq<Point>
    decreases k,
{
    if k <= 0 {
        Seq::empty()
    } else {
        fill_order_upto(board, c, k - 1) + class_cells(board, c, k - 1, 64)
    }
}

/// What `fill` lists: the cells of color `c`, heaviest first, in scan order
/// among equal weights.
pub open spec fn fill_order(board: ByteBoard, c: Color) -> Seq<Point> {
    fill_order_upto(board, c, 7)
}

/// Position of an on-board point in scan order.
pub open spec fn scan_index(p: Point) -> int {
    8 * p.x + p.y
}

pub open spec fn in_class(b: ByteBoard, p: Point, c: Color, k: int) -> bool {
    b.at_point(p).color_of() == c && rank_class(b.at_point(p).rank_of()) == k
}

pub open spec fn on_board_pt(p: Point) -> bool {
    0 <= p.x < 8 && 0 <= p.y < 8
}

proof fn lemma_class_cells(b: ByteBoard, c: Color, k: int, n: int)
    requires
        0 <= n <= 64,
    ensures
        class_cells(b, c, k, n).no_duplicates(),
        forall|i: int|
            0 <= i < class_cells(b, c, k, n).len() ==> {
                let p = #[trigger] class_cells(b, c, k, n)[i];
                on_board_pt(p) && in_class(b, p, c, k) && scan_index(p) < n
            },
        forall|j: int|
            0 <= j < n && in_class(b, #[trigger] scan_point(j), c, k) ==> class_cells(
                b,
                c,
                k,
                n,
            ).contains(scan_point(j)),
    decreases n,
{
    if n > 0 {
        lemma_class_cells(b, c, k, n - 1);
        let s = class_cells(b, c, k, n - 1);
        let p = scan_point(n - 1);
        assert(scan_index(p) == n - 1);
        assert forall|j: int| 0 <= j < n && in_class(b, #[trigger] scan_point(j), c, k) implies class_cells(
            b,
            c,
            k,
            n,
        ).contains(scan_point(j)) by {
            if j < n - 1 {
                let i = choose|i: int| 0 <= i < s.len() && s[i] == scan_point(j);
                assert(class_cells(b, c, k, n)[i] == scan_point(j));
            } else {
                assert(class_cells(b, c, k, n)[s.len() as int] == scan_point(j));
            }
        }
    }
}

/// Facts about the first `k` classes of the fill order.
proof fn lemma_fill_order_upto(b: ByteBoard, c: Color, k: int)
    requires
        0 <= k <= 7,
    ensures
        fill_order_upto(b, c, k).no_duplicates(),
        forall|i: int|
            0 <= i < fill_order_upto(b, c, k).len() ==> {
                let p = #[trigger] fill_order_upto(b, c, k)[i];
                on_board_pt(p) && b.at_point(p).color_of() == c && rank_class(
                    b.at_point(p).rank_of(),
                ) < k
            },
        forall|j: int|
            0 <= j < 64 && b.at_point(#[trigger] scan_point(j)).color_of() == c && rank_class(
                b.at_point(scan_point(j)).rank_of(),
            ) < k ==> fill_order_upto(b, c, k).contains(scan_point(j)),
        forall|i: int, j: int|
            0 <= i < j < fill_order_upto(b, c, k).len() ==> rank_class(
                b.at_point(#[trigger] fill_order_upto(b, c, k)[i]).rank_of(),
            ) <= rank_class(b.at_point(#[trigger] fill_order_upto(b, c, k)[j]).rank_of()),
    decreases k,
{
    if k > 0 {
        lemma_fill_order_upto(b, c, k - 1);
        lemma_class_cells(b, c, k - 1, 64);
        let a = fill_order_upto(b, c, k - 1);
        let d = class_cells(b, c, k - 1, 64);
        let r = fill_order_upto(b, c, k);
        assert(r == a + d);
        assert forall|i: int| 0 <= i < r.len() implies #[trigger] r[i] == (if i < a.len() {
            a[i]
        } else {
            d[i - a.len()]
        }) by {}
        assert(r.no_duplicates()) by {
            assert forall|i: int, j: int|
                0 <= i < r.len() && 0 <= j < r.len() && i != j implies r[i] != r[j] by {
                if i < a.len() && j >= a.len() {
                    assert(rank_class(b.at_point(r[i]).rank_of()) < k - 1);
                    assert(in_class(b, d[j - a.len()], c, k - 1));
                } else if j < a.len() && i >= a.len() {
                    assert(rank_class(b.at_point(r[j]).rank_of()) < k - 1);
                    assert(in_class(b, d[i - a.len()], c, k - 1));
                }
            }
        }
        assert forall|j: int|
            0 <= j < 64 && b.at_point(#[trigger] scan_point(j)).color_of() == c && rank_class(
                b.at_point(scan_point(j)).rank_of(),
            ) < k implies r.contains(scan_point(j)) by {
            if rank_class(b.at_point(scan_point(j)).rank_of()) < k - 1 {
                let i = choose|i: int| 0 <= i < a.len() && a[i] == scan_point(j);
                assert(r[i] == scan_point(j));
            } else {
                assert(in_class(b, scan_point(j), c, k - 1));
                let i = choose|i: int| 0 <= i < d.len() && d[i] == scan_point(j);
                assert(r[i + a.len()] == scan_point(j));
            }
        }
        assert forall|i: int, j: int| 0 <= i < j < r.len() implies rank_class(
            b.at_point(#[trigger] r[i]).rank_of(),
        ) <= rank_class(b.at_point(#[trigger] r[j]).rank_of()) by {
            if j >= a.len() {
                assert(in_class(b, d[j - a.len()], c, k - 1));
            }
            if i >= a.len() {
                assert(in_class(b, d[i - a.len()], c, k - 1));
            }
        }
    }
}

/// What `fill` lists: each on-board cell of color `c` once, and nothing
/// else; weight classes never go back.
pub proof fn lemma_fill_order(b: ByteBoard, c: Color)
    ensures
        fill_order(b, c).no_duplicates(),
        forall|i: int|
            0 <= i < fill_order(b, c).len() ==> on_board_pt(#[trigger] fill_order(b, c)[i])
                && b.at_point(fill_order(b, c)[i]).color_of() == c,
        forall|p: Point|
            on_board_pt(p) && b.at_point(p).color_of() == c ==> #[trigger] fill_order(
                b,
                c,
            ).contains(p),
        forall|i: int, j: int|
            0 <= i < j < fill_order(b, c).len() ==> rank_class(
                b.at_point(#[trigger] fill_order(b, c)[i]).rank_of(),
            ) <= rank_class(b.at_point(#[trigger] fill_order(b, c)[j]).rank_of()),
{
    lemma_fill_order_upto(b, c, 7);
    assert forall|p: Point| on_board_pt(p) && b.at_point(p).color_of() == c implies #[trigger] fill_order(
        b,
        c,
    ).contains(p) by {
        let j = scan_index(p);
        assert(scan_point(j) == p);
    }
}

impl Default for FigurePointList {
    /// An index that lists nothing.
    fn default() -> (r: FigurePointList)
        ensures
            r.wf(),
            r.points() == Seq::<Point>::empty(),
    {
        FigurePointList {
            nodes: [PointLinkedNode { point: Point { x: 0, y: 0 }, next: NO_NODE }; 16],
            first: NO_NODE,
            order: Ghost(Seq::empty()),
        }
    }
}

/// What an index holds: its arena, the head link and the chain's slots.
pub struct ListView {
    pub nodes: Seq<PointLinkedNode>,
    pub first: usize,
    pub order: Seq<usize>,
}

impl ListView {
    /// The chain is well formed: distinct arena slots, the head and every
    /// `next` link follow `order`, and the last node ends the chain.
    pub open spec fn wf(self) -> bool {
        let o = self.order;
        &&& self.nodes.len() == CAPACITY
        &&& o.no_duplicates()
        &&& forall|i: int| 0 <= i < o.len() ==> #[trigger] o[i] < CAPACITY
        &&& self.first == (if o.len() == 0 { NO_NODE } else { o[0] })
        &&& forall|i: int|
            0 <= i < o.len() ==> #[trigger] self.nodes[o[i] as int].next == (if i + 1 < o.len() {
                o[i + 1]
            } else {
                NO_NODE
            })
    }

    /// The listed points, in chain order.
    pub open spec fn points(self) -> Seq<Point> {
        chain_points(self.nodes, self.order)
    }

    /// `c` names the link that holds `p`.
    pub open spec fn cursor_of(self, c: LinkedNodeCursor, p: Point) -> bool {
        exists|k: int| self.cursor_at(c, k) && self.points()[k] == p
    }

    /// `c` names the `k`-th link of the chain.
    pub open spec fn cursor_at(self, c: LinkedNodeCursor, k: int) -> bool {
        &&& 0 <= k < self.order.len()
        &&& self.order[k] == c.cur
        &&& c.prev == (if k == 0 { NO_NODE } else { self.order[k - 1] })
    }

    pub open spec fn linked(self, c: LinkedNodeCursor) -> bool {
        exists|k: int| self.cursor_at(c, k)
    }

    /// `c` names a node that was unlinked and can be put back: its `next`
    /// still is what follows the place it was taken from.
    pub open spec fn detached(self, c: LinkedNodeCursor) -> bool {
        &&& c.cur < CAPACITY
        &&& !self.order.contains(c.cur)
        &&& if c.prev == NO_NODE {
            self.nodes[c.cur as int].next == self.first
        } else {
            &&& self.order.contains(c.prev)
            &&& self.nodes[c.cur as int].next == self.nodes[c.prev as int].next
        }
    }

    /// Where a detached cursor's node goes back into the chain.
    pub open spec fn restore_pos(self, c: LinkedNodeCursor) -> int {
        if c.prev == NO_NODE {
            0
        } else {
            self.order.index_of(c.prev) + 1
        }
    }

    /// The index after the node named by `c` is given point `p`.
    pub open spec fn with_point(self, c: LinkedNodeCursor, p: Point) -> ListView {
        if c.cur < CAPACITY {
            ListView {
                nodes: self.nodes.update(
                    c.cur as int,
                    PointLinkedNode { point: p, next: self.nodes[c.cur as int].next },
                ),
                ..self
            }
        } else {
            self
        }
    }

    /// The index after the node named by `c` is unlinked.
    pub open spec fn unlinked(self, c: LinkedNodeCursor) -> ListView {
        if c.prev == NO_NODE {
            ListView {
                nodes: self.nodes,
                first: self.nodes[c.cur as int].next,
                order: self.order.remove(self.order.index_of(c.cur)),
            }
        } else {
            ListView {
                nodes: self.nodes.update(
                    c.prev as int,
                    PointLinkedNode {
                        point: self.nodes[c.prev as int].point,
                        next: self.nodes[c.cur as int].next,
                    },
                ),
                first: self.first,
                order: self.order.remove(self.order.index_of(c.cur)),
            }
        }
    }

    /// The index after `c`'s node is linked back in; nothing changes for a
    /// cursor that is still linked or names nothing.
    pub open spec fn relinked(self, c: LinkedNodeCursor) -> ListView {
        if c.cur == NO_NODE || self.linked(c) {
            self
        } else if c.prev == NO_NODE {
            ListView {
                nodes: self.nodes,
                first: c.cur,
                order: self.order.insert(self.restore_pos(c), c.cur),
            }
        } else {
            ListView {
                nodes: self.nodes.update(
                    c.prev as int,
                    PointLinkedNode { point: self.nodes[c.prev as int].point, next: c.cur },
                ),
                first: self.first,
                order: self.order.insert(self.restore_pos(c), c.cur),
            }
        }
    }
}

impl View for FigurePointList {
    type V = ListView;

    open spec fn view(&self) -> ListView {
        ListView { nodes: self.nodes@, first: self.first, order: self.order@ }
    }
}

impl FigurePointList {
    pub open spec fn wf(self) -> bool {
        self@.wf()
    }

    pub open spec fn points(self) -> Seq<Point> {
        self@.points()
    }

    pub open spec fn cursor_at(self, c: LinkedNodeCursor, k: int) -> bool {
        self@.cursor_at(c, k)
    }

    pub open spec fn linked(self, c: LinkedNodeCursor) -> bool {
        self@.linked(c)
    }

    pub open spec fn detached(self, c: LinkedNodeCursor) -> bool {
        self@.detached(c)
    }

    pub open spec fn restore_pos(self, c: LinkedNodeCursor) -> int {
        self@.restore_pos(c)
    }

    /// The index of `color`'s figures on `board`.
    pub fn new(board: &ByteBoard, color: Color) -> (r: FigurePointList)
        requires
            fill_order(*board, color).len() <= CAPACITY,
        ensures
            r.wf(),
            r.points() == fill_order(*board, color),
    {
        let mut list = FigurePointList::default();
        list.fill(board, color);
        list
    }

    /// Rebuilds the index from the board: the cells of `color`, heaviest
    /// figures first and in scan order among equal weights, linked through
    /// the first slots of the arena.
    pub fn fill(&mut self, board: &ByteBoard, color: Color)
        requires
            fill_order(*board, color).len() <= CAPACITY,
        ensures
            final(self).wf(),
            final(self).points() == fill_order(*board, color),
    {
        let cells = board.cell_iter();
        let mut pts: Vec<Point> = Vec::new();
        let mut k: u8 = 0;
        while k < 7
            invariant
                0 <= k <= 7,
                cells@.len() == 64,
                forall|i: int|
                    0 <= i < 64 ==> #[trigger] cells@[i] == (
                        Point { x: (i / 8) as i8, y: (i % 8) as i8 },
                        board.at(i / 8, i % 8),
                    ),
                pts@ == fill_order_upto(*board, color, k as int),
            decreases 7 - k,
        {
            let mut i: usize = 0;
            while i < 64
                invariant
                    0 <= k < 7,
                    0 <= i <= 64,
                    cells@.len() == 64,
                    forall|j: int|
                        0 <= j < 64 ==> #[trigger] cells@[j] == (
                            Point { x: (j / 8) as i8, y: (j % 8) as i8 },
                            board.at(j / 8, j % 8),
                        ),
                    pts@ == fill_order_upto(*board, color, k as int) + class_cells(
                        *board,
                        color,
                        k as int,
                        i as int,
                    ),
                decreases 64 - i,
            {
                let (p, f) = cells[i];
                proof {
                    let ii = i as int;
                    assert(cells@[ii] == (
                        Point { x: (ii / 8) as i8, y: (ii % 8) as i8 },
                        board.at(ii / 8, ii % 8),
                    ));
                    assert(p == scan_point(i as int));
                    assert(board.at_point(p) == f);
                }
                if f.color() == color && rank_class_code(f.rank()) == k {
                    pts.push(p);
                    proof {
                        assert(pts@ =~= fill_order_upto(*board, color, k as int) + class_cells(
                            *board,
                            color,
                            k as int,
                            i + 1,
                        ));
                    }
                } else {
                    proof {
                        assert(pts@ =~= fill_order_upto(*board, color, k as int) + class_cells(
                            *board,
                            color,
                            k as int,
                            i + 1,
                        ));
                    }
                }
                i += 1;
            }
            k += 1;
        }
        let n = pts.len();
        let mut i: usize = 0;
        while i < n
            invariant
                n == pts@.len(),
                n <= CAPACITY,
                0 <= i <= n,
                forall|j: int|
                    0 <= j < i ==> #[trigger] self.nodes@[j] == (PointLinkedNode {
                        point: pts@[j],
                        next: if j + 1 < n {
                            (j + 1) as usize
                        } else {
                            NO_NODE
                        },
                    }),
            decreases n - i,
        {
            let next = if i + 1 < n {
                i + 1
            } else {
                NO_NODE
            };
            self.nodes[i] = PointLinkedNode { point: pts[i], next };
            i += 1;
        }
        self.first = if n == 0 {
            NO_NODE
        } else {
            0
        };
        self.order = Ghost(Seq::new(n as nat, |j: int| j as usize));
        proof {
            assert(self.order@.no_duplicates());
            assert(self.points() =~= pts@);
        }
    }

    /// The listed points, following the chain from its head.
    pub fn iter(&self) -> (r: Vec<Point>)
        requires
            self.wf(),
        ensures
            r@ == self.points(),
    {
        let mut r: Vec<Point> = Vec::new();
        let mut cur = self.first;
        let ghost mut i: int = 0;
        while cur != NO_NODE
            invariant
                self.wf(),
                0 <= i <= self.order@.len(),
                cur == (if i < self.order@.len() { self.order@[i] } else { NO_NODE }),
                r@ == self.points().subrange(0, i),
            decreases self.order@.len() - i,
        {
            let node = self.nodes[cur];
            r.push(node.point);
            proof {
                assert(r@ =~= self.points().subrange(0, i + 1));
                i = i + 1;
            }
            cur = node.next;
        }
        assert(r@ =~= self.points());
        r
    }

    /// `c` names the link that holds `p`.
    pub open spec fn cursor_of(self, c: LinkedNodeCursor, p: Point) -> bool {
        self@.cursor_of(c, p)
    }

    /// A cursor naming the first link that holds `point`, if any.
    pub fn find(&self, point: Point) -> (r: Option<LinkedNodeCursor>)
        requires
            self.wf(),
        ensures
            r is Some <==> self.points().contains(point),
            r matches Some(c) ==> self.cursor_of(c, point),
    {
        let cursors = self.node_iter();
        let mut i: usize = 0;
        while i < cursors.len()
            invariant
                self.wf(),
                cursors@.len() == self.order@.len(),
                forall|k: int| 0 <= k < cursors@.len() ==> self.cursor_at(#[trigger] cursors@[k], k),
                0 <= i <= cursors@.len(),
                forall|j: int| 0 <= j < i ==> #[trigger] self.points()[j] != point,
            decreases cursors@.len() - i,
        {
            let c = cursors[i];
            proof {
                assert(self.cursor_at(cursors@[i as int], i as int));
            }
            if c.point(self) == point {
                proof {
                    assert(self@.cursor_at(c, i as int));
                    assert(self.points()[i as int] == point);
                    assert(self.points().contains(point));
                    assert(self.cursor_of(c, point));
                }
                return Some(c);
            }
            i += 1;
        }
        proof {
            if self.points().contains(point) {
                let j = choose|j: int| 0 <= j < self.points().len() && self.points()[j] == point;
                assert(self.points()[j] != point);
            }
        }
        None
    }

    /// A cursor for every link of the chain, head first.
    pub fn node_iter(&self) -> (r: Vec<LinkedNodeCursor>)
        requires
            self.wf(),
        ensures
            r@.len() == self.order@.len(),
            forall|k: int| 0 <= k < r@.len() ==> self.cursor_at(#[trigger] r@[k], k),
    {
        let mut r: Vec<LinkedNodeCursor> = Vec::new();
        let mut prev = NO_NODE;
        let mut cur = self.first;
        let ghost mut i: int = 0;
        while cur != NO_NODE
            invariant
                self.wf(),
                0 <= i <= self.order@.len(),
                r@.len() == i,
                cur == (if i < self.order@.len() { self.order@[i] } else { NO_NODE }),
                prev == (if i == 0 { NO_NODE } else { self.order@[i - 1] }),
                forall|k: int| 0 <= k < r@.len() ==> self.cursor_at(#[trigger] r@[k], k),
            decreases self.order@.len() - i,
        {
            r.push(LinkedNodeCursor { prev, cur });
            proof {
                assert(self.cursor_at(r@[i], i));
                i = i + 1;
            }
            prev = cur;
            cur = self.nodes[cur].next;
        }
        r
    }
}

impl LinkedNodeCursor {
    /// The point held by the node this cursor names.
    pub fn point(&self, list: &FigurePointList) -> (r: Point)
        requires
            self.cur < CAPACITY,
        ensures
            r == list.nodes@[self.cur as int].point,
    {
        list.nodes[self.cur].point
    }

    /// Rewrites the point of the node this cursor names; a cursor that names
    /// nothing changes nothing.
    pub fn point_set(&self, list: &mut FigurePointList, point: Point)
        ensures
            final(list)@ == old(list)@.with_point(*self, point),
            final(list).first == old(list).first,
            final(list).order == old(list).order,
            final(list).nodes@ == (if self.cur < CAPACITY {
                old(list).nodes@.update(
                    self.cur as int,
                    PointLinkedNode { point, next: old(list).nodes@[self.cur as int].next },
                )
            } else {
                old(list).nodes@
            }),
    {
        if self.cur < CAPACITY {
            let next = list.nodes[self.cur].next;
            list.nodes[self.cur] = PointLinkedNode { point, next };
        }
    }

    /// Unlinks the named node. Its own `next` is left as it was, so that
    /// `restore` can put it back.
    pub fn remove(&self, list: &mut FigurePointList)
        requires
            old(list).wf(),
            old(list).linked(*self),
        ensures
            final(list)@ == old(list)@.unlinked(*self),
            final(list).wf(),
            final(list).detached(*self),
    {
        let ghost k = choose|k: int| list@.cursor_at(*self, k);
        proof {
            lemma_unlink(list@, *self, k);
        }
        let next = list.nodes[self.cur].next;
        if self.prev == NO_NODE {
            list.first = next;
        } else {
            let p = list.nodes[self.prev].point;
            list.nodes[self.prev] = PointLinkedNode { point: p, next };
        }
        list.order = Ghost(list.order@.remove(k));
    }

    /// Links the named node back in after `prev` (or at the head). On a
    /// cursor that is still linked, or that names nothing, nothing changes.
    pub fn restore(&self, list: &mut FigurePointList)
        requires
            old(list).wf(),
            self.cur == NO_NODE || old(list).linked(*self) || old(list).detached(*self),
        ensures
            final(list)@ == old(list)@.relinked(*self),
            final(list).wf(),
    {
        proof {
            lemma_relink(list@, *self);
        }
        if self.cur == NO_NODE {
            return ;
        }
        let ghost target = list@.relinked(*self);
        let ghost was_linked = list@.linked(*self);
        proof {
            if was_linked {
                let k = choose|k: int| list@.cursor_at(*self, k);
                if self.prev != NO_NODE {
                    assert(list.order@[k - 1] == self.prev);
                    assert(list.nodes@[self.prev as int].next == self.cur);
                } else {
                    assert(k == 0);
                }
            }
        }
        if self.prev == NO_NODE {
            list.first = self.cur;
        } else {
            let p = list.nodes[self.prev].point;
            list.nodes[self.prev] = PointLinkedNode { point: p, next: self.cur };
        }
        list.order = Ghost(target.order);
        proof {
            if was_linked {
                assert(list.nodes@ =~= target.nodes);
            }
        }
    }
}

/// Unlinking the `k`-th link keeps the chain well formed, drops the `k`-th
/// point, and leaves the cursor ready to be linked back at the same place.
pub proof fn lemma_unlink(l: ListView, c: LinkedNodeCursor, k: int)
    requires
        l.wf(),
        l.cursor_at(c, k),
    ensures
        l.order.index_of(c.cur) == k,
        l.unlinked(c).wf(),
        l.unlinked(c).detached(c),
        !l.unlinked(c).linked(c),
        l.unlinked(c).restore_pos(c) == k,
        l.unlinked(c).relinked(c) == l,
        l.unlinked(c).points() == l.points().remove(k),
{
    let o = l.order;
    assert(o.index_of(c.cur) == k) by {
        let j = o.index_of(c.cur);
        assert(o[k] == c.cur);
    }
    let u = l.unlinked(c);
    let n = u.order;
    assert(n =~= o.remove(k));
    assert(n.len() == o.len() - 1);
    assert forall|i: int| 0 <= i < n.len() implies #[trigger] n[i] == (if i < k {
        o[i]
    } else {
        o[i + 1]
    }) by {}
    assert(n.no_duplicates());
    assert forall|i: int| 0 <= i < n.len() implies #[trigger] u.nodes[n[i] as int].next == (if i
        + 1 < n.len() {
        n[i + 1]
    } else {
        NO_NODE
    }) by {
        if i < k {
            assert(n[i] == o[i]);
        } else {
            assert(n[i] == o[i + 1]);
            assert(o[i + 1] != o[k - 1] || k == 0);
        }
    }
    assert(!n.contains(c.cur)) by {
        if n.contains(c.cur) {
            let j = choose|j: int| 0 <= j < n.len() && n[j] == c.cur;
            if j < k {
                assert(o[j] == o[k]);
            } else {
                assert(o[j + 1] == o[k]);
            }
        }
    }
    assert(!u.linked(c)) by {
        if u.linked(c) {
            let j = choose|j: int| u.cursor_at(c, j);
            assert(n.contains(c.cur));
        }
    }
    if c.prev != NO_NODE {
        assert(n[k - 1] == c.prev);
        assert(n.contains(c.prev));
        assert(n.index_of(c.prev) == k - 1) by {
            let j = n.index_of(c.prev);
            if j != k - 1 {
                if j < k {
                    assert(o[j] == o[k - 1]);
                } else {
                    assert(o[j + 1] == o[k - 1]);
                }
            }
        }
        assert(l.nodes[c.prev as int].next == c.cur);
        assert(u.relinked(c).nodes =~= l.nodes);
    } else {
        assert(k == 0);
    }
    assert(u.relinked(c).order =~= o);
    assert(u.points() =~= l.points().remove(k));
}

/// Linking back a detached cursor keeps the chain well formed; so does a
/// cursor that is still linked or names nothing, which changes nothing.
pub proof fn lemma_relink(l: ListView, c: LinkedNodeCursor)
    requires
        l.wf(),
        c.cur == NO_NODE || l.linked(c) || l.detached(c),
    ensures
        l.relinked(c).wf(),
{
    if c.cur == NO_NODE || l.linked(c) {
        return ;
    }
    let o = l.order;
    let r = l.relinked(c);
    let pos = l.restore_pos(c);
    if c.prev != NO_NODE {
        let j = o.index_of(c.prev);
        assert(0 <= j < o.len() && o[j] == c.prev);
    }
    let n = r.order;
    assert(n.len() == o.len() + 1);
    assert forall|i: int| 0 <= i < n.len() implies #[trigger] n[i] == (if i < pos {
        o[i]
    } else if i == pos {
        c.cur
    } else {
        o[i - 1]
    }) by {}
    assert(n.no_duplicates()) by {
        assert forall|i: int, j: int|
            0 <= i < n.len() && 0 <= j < n.len() && i != j implies n[i] != n[j] by {
            if i == pos {
                if j < pos {
                    assert(o[j] == n[j]);
                } else {
                    assert(o[j - 1] == n[j]);
                }
            } else if j == pos {
                if i < pos {
                    assert(o[i] == n[i]);
                } else {
                    assert(o[i - 1] == n[i]);
                }
            }
        }
    }
    assert forall|i: int| 0 <= i < n.len() implies #[trigger] n[i] < CAPACITY by {}
    assert forall|i: int| 0 <= i < n.len() implies #[trigger] r.nodes[n[i] as int].next == (if i
        + 1 < n.len() {
        n[i + 1]
    } else {
        NO_NODE
    }) by {
        if i < pos - 1 {
            assert(o[i] != o[pos - 1]);
        } else if i == pos - 1 {
        } else if i == pos {
            assert(c.prev != c.cur);
            if c.prev != NO_NODE {
                assert(l.nodes[o[pos - 1] as int].next == (if pos < o.len() {
                    o[pos]
                } else {
                    NO_NODE
                }));
            }
        } else {
            if c.prev != NO_NODE {
                assert(o[i - 1] != o[pos - 1]);
            }
        }
    }
}

/// A well-formed chain has at most `CAPACITY` links.
pub proof fn lemma_chain_len(l: ListView)
    requires
        l.wf(),
    ensures
        l.order.len() <= CAPACITY,
{
    let o = l.order;
    o.unique_seq_to_set();
    let r = Set::<usize>::range(0usize, 16usize);
    vstd::set_lib::range_set_properties::<usize>(0usize, 16usize);
    assert(o.to_set().subset_of(r)) by {
        assert forall|v: usize| o.to_set().contains(v) implies r.contains(v) by {
            let i = choose|i: int| 0 <= i < o.len() && o[i] == v;
        }
    }
    vstd::set_lib::lemma_len_subset(o.to_set(), r);
}

/// Rewriting a linked node's point keeps the chain and its links; the
/// listed points change at that position only.
pub proof fn lemma_with_point(l: ListView, c: LinkedNodeCursor, k: int, p: Point)
    requires
        l.wf(),
        l.cursor_at(c, k),
    ensures
        l.with_point(c, p).wf(),
        l.with_point(c, p).cursor_at(c, k),
        l.with_point(c, p).order == l.order,
        l.with_point(c, p).points() == l.points().update(k, p),
{
    let w = l.with_point(c, p);
    let o = l.order;
    assert forall|i: int| 0 <= i < o.len() implies #[trigger] w.nodes[o[i] as int].next == l.nodes[o[i] as int].next by {}
    assert forall|i: int| 0 <= i < o.len() && i != k implies o[i] != c.cur by {
        assert(o[k] == c.cur);
    }
    assert(w.points() =~= l.points().update(k, p));
}

} // verus!
