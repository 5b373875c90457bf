//! Evaluation and search: the static score, plain negamax, and negamax with
//! alpha-beta pruning and a null-window probe.

use vstd::prelude::*;
use crate::board::{ByteBoard, in_band};
use crate::board_controller::{
    BoardController,
    board_after,
    captured_points,
    lemma_made_wf,
    moved_points,
    on_board_point,
};
use crate::figure::{Figure, W_INFINITY, color_code};
use crate::generation::lemma_friend_moves_makeable;
use crate::figure_list::lemma_chain_len;
use crate::movement::{Move, MoveType, lemma_sorted_moves_permutes, list_moves, sorted_moves};
use crate::point::Point;

verus! {

/// The positional bias: `(color byte - 64) + 8 y + (8 - x)`.
pub open spec fn positional(p: Point, f: Figure) -> int {
    (color_code(f.color_of()) - 64) + 8 * p.y + (8 - p.x)
}

/// The score of one square: material plus position.
pub open spec fn eval_point(b: ByteBoard, p: Point) -> int {
    b.at_point(p).weight_of() + positional(p, b.at_point(p))
}

pub open spec fn eval_sum(b: ByteBoard, pts: Seq<Point>) -> int
    decreases pts.len(),
{
    if pts.len() == 0 {
        0
    } else {
        eval_sum(b, pts.drop_last()) + eval_point(b, pts.last())
    }
}

/// The static score from the side to move: its squares minus the others'.
pub open spec fn static_score(b: ByteBoard, fp: Seq<Point>, ep: Seq<Point>) -> int {
    eval_sum(b, fp) - eval_sum(b, ep)
}

/// Largest magnitude of a score a search returns.
pub const SCORE_BOUND: i32 = 3000000;

/// Largest magnitude of an alpha-beta window bound.
pub const WINDOW_LIMIT: i32 = 1000000000;

/// Negamax value of a position at `depth`: the static score at depth 0,
/// else the best negated value over the generated moves, starting from
/// `-W_INFINITY`; ties keep the first move.
pub open spec fn negamax(b: ByteBoard, fp: Seq<Point>, ep: Seq<Point>, depth: nat) -> (int, Option<Move>)
    decreases depth, 1nat, 0nat,
{
    if depth == 0 {
        (static_score(b, fp, ep), None)
    } else {
        best_of(b, fp, ep, depth, list_moves(b, fp).len())
    }
}

/// The best of the first `n` generated moves, with the move that reached it.
pub open spec fn best_of(b: ByteBoard, fp: Seq<Point>, ep: Seq<Point>, depth: nat, n: nat) -> (
    int,
    Option<Move>,
)
    decreases depth, 0nat, n,
{
    let moves = list_moves(b, fp);
    if depth == 0 {
        (0, None)
    } else if n == 0 {
        (-W_INFINITY as int, if moves.len() > 0 { Some(moves[0]) } else { None })
    } else {
        let prev = best_of(b, fp, ep, depth, (n - 1) as nat);
        let m = moves[n - 1];
        let score = -negamax(
            board_after(b, m),
            captured_points(ep, m),
            moved_points(fp, m),
            (depth - 1) as nat,
        ).0;
        if score > prev.0 {
            (score, Some(m))
        } else {
            prev
        }
    }
}

/// Alpha-beta value of a position at `depth` in the window `(alpha, beta)`,
/// with the move that reached it: the static score at depth 0, else the
/// loop over the generated moves in positional order.
pub open spec fn alpha_beta(
    b: ByteBoard,
    fp: Seq<Point>,
    ep: Seq<Point>,
    depth: nat,
    alpha: int,
    beta: int,
) -> (int, Option<Move>)
    decreases depth, 1nat, 0nat,
{
    if depth == 0 {
        (static_score(b, fp, ep), None)
    } else {
        let moves = sorted_moves(b, list_moves(b, fp));
        ab_loop(
            b,
            fp,
            ep,
            depth,
            moves,
            0,
            alpha,
            beta,
            (-W_INFINITY as int, if moves.len() > 0 { Some(moves[0]) } else { None }),
        )
    }
}

/// The alpha-beta loop from move `i` on: probe each child with the null
/// window `(-alpha - 1, -alpha)`, search again with `(-beta, -alpha)` when
/// the probe lands strictly inside `(alpha, beta)`, keep the first best,
/// raise alpha, and stop with alpha once it reaches beta.
pub open spec fn ab_loop(
    b: ByteBoard,
    fp: Seq<Point>,
    ep: Seq<Point>,
    depth: nat,
    moves: Seq<Move>,
    i: int,
    alpha: int,
    beta: int,
    best: (int, Option<Move>),
) -> (int, Option<Move>)
    decreases depth, 0nat, moves.len() - i,
{
    if depth == 0 || i < 0 || i >= moves.len() {
        best
    } else {
        let m = moves[i];
        let b2 = board_after(b, m);
        let fp2 = captured_points(ep, m);
        let ep2 = moved_points(fp, m);
        let probe = -alpha_beta(b2, fp2, ep2, (depth - 1) as nat, -(alpha + 1), -alpha).0;
        let score = if alpha < probe && probe < beta {
            -alpha_beta(b2, fp2, ep2, (depth - 1) as nat, -beta, -alpha).0
        } else {
            probe
        };
        let best2 = if score > best.0 {
            (score, Some(m))
        } else {
            best
        };
        let alpha2 = if best2.0 > alpha {
            best2.0
        } else {
            alpha
        };
        if alpha2 >= beta {
            (alpha2, best2.1)
        } else {
            ab_loop(b, fp, ep, depth, moves, i + 1, alpha2, beta, best2)
        }
    }
}

/// One step of the alpha-beta loop, unfolded.
proof fn lemma_ab_unfold(
    b: ByteBoard,
    fp: Seq<Point>,
    ep: Seq<Point>,
    depth: nat,
    moves: Seq<Move>,
    i: int,
    alpha: int,
    beta: int,
    best: (int, Option<Move>),
)
    requires
        depth > 0,
        0 <= i < moves.len(),
    ensures
        ({
            let m = moves[i];
            let b2 = board_after(b, m);
            let fp2 = captured_points(ep, m);
            let ep2 = moved_points(fp, m);
            let probe = -alpha_beta(b2, fp2, ep2, (depth - 1) as nat, -(alpha + 1), -alpha).0;
            let score = if alpha < probe && probe < beta {
                -alpha_beta(b2, fp2, ep2, (depth - 1) as nat, -beta, -alpha).0
            } else {
                probe
            };
            let best2 = if score > best.0 {
                (score, Some(m))
            } else {
                best
            };
            let alpha2 = if best2.0 > alpha {
                best2.0
            } else {
                alpha
            };
            &&& ab_loop(b, fp, ep, depth, moves, i, alpha, beta, best) == if alpha2 >= beta {
                (alpha2, best2.1)
            } else {
                ab_loop(b, fp, ep, depth, moves, i + 1, alpha2, beta, best2)
            }
            &&& ab_loop_leaves(b, fp, ep, depth, moves, i, alpha, beta, best) == alpha_beta_leaves(
                b2,
                fp2,
                ep2,
                (depth - 1) as nat,
                -(alpha + 1),
                -alpha,
            ) + (if alpha < probe && probe < beta {
                alpha_beta_leaves(b2, fp2, ep2, (depth - 1) as nat, -beta, -alpha)
            } else {
                0
            }) + (if alpha2 >= beta {
                0
            } else {
                ab_loop_leaves(b, fp, ep, depth, moves, i + 1, alpha2, beta, best2)
            })
        }),
{
}

/// The counter after `n` more leaves: it stops at `i32::MAX`.
pub open spec fn counted(c: int, n: int) -> int {
    if c + n > i32::MAX {
        i32::MAX as int
    } else {
        c + n
    }
}

proof fn lemma_counted(c: int, a: int, b: int)
    requires
        c <= i32::MAX,
        a >= 0,
        b >= 0,
    ensures
        counted(counted(c, a), b) == counted(c, a + b),
        counted(c, a) <= i32::MAX,
{
}

/// The leaves plain negamax evaluates from a position at `depth`.
pub open spec fn negamax_leaves(b: ByteBoard, fp: Seq<Point>, ep: Seq<Point>, depth: nat) -> nat
    decreases depth, 1nat, 0nat,
{
    if depth == 0 {
        1
    } else {
        leaves_of(b, fp, ep, depth, list_moves(b, fp).len())
    }
}

/// The leaves under the first `n` generated moves.
pub open spec fn leaves_of(b: ByteBoard, fp: Seq<Point>, ep: Seq<Point>, depth: nat, n: nat) -> nat
    decreases depth, 0nat, n,
{
    if depth == 0 || n == 0 {
        0
    } else {
        let m = list_moves(b, fp)[n - 1];
        leaves_of(b, fp, ep, depth, (n - 1) as nat) + negamax_leaves(
            board_after(b, m),
            captured_points(ep, m),
            moved_points(fp, m),
            (depth - 1) as nat,
        )
    }
}

/// The leaves alpha-beta evaluates from a position at `depth` in the window
/// `(alpha, beta)`.
pub open spec fn alpha_beta_leaves(
    b: ByteBoard,
    fp: Seq<Point>,
    ep: Seq<Point>,
    depth: nat,
    alpha: int,
    beta: int,
) -> nat
    decreases depth, 1nat, 0nat,
{
    if depth == 0 {
        1
    } else {
        let moves = sorted_moves(b, list_moves(b, fp));
        ab_loop_leaves(
            b,
            fp,
            ep,
            depth,
            moves,
            0,
            alpha,
            beta,
            (-W_INFINITY as int, if moves.len() > 0 { Some(moves[0]) } else { None }),
        )
    }
}

/// The leaves of the alpha-beta loop from move `i` on: the probe's, the
/// re-search's when there is one, then the rest unless the loop stops.
pub open spec fn ab_loop_leaves(
    b: ByteBoard,
    fp: Seq<Point>,
    ep: Seq<Point>,
    depth: nat,
    moves: Seq<Move>,
    i: int,
    alpha: int,
    beta: int,
    best: (int, Option<Move>),
) -> nat
    decreases depth, 0nat, moves.len() - i,
{
    if depth == 0 || i < 0 || i >= moves.len() {
        0
    } else {
        let m = moves[i];
        let b2 = board_after(b, m);
        let fp2 = captured_points(ep, m);
        let ep2 = moved_points(fp, m);
        let probe = -alpha_beta(b2, fp2, ep2, (depth - 1) as nat, -(alpha + 1), -alpha).0;
        let here = alpha_beta_leaves(b2, fp2, ep2, (depth - 1) as nat, -(alpha + 1), -alpha) + if alpha
            < probe && probe < beta {
            alpha_beta_leaves(b2, fp2, ep2, (depth - 1) as nat, -beta, -alpha)
        } else {
            0
        };
        let score = if alpha < probe && probe < beta {
            -alpha_beta(b2, fp2, ep2, (depth - 1) as nat, -beta, -alpha).0
        } else {
            probe
        };
        let best2 = if score > best.0 {
            (score, Some(m))
        } else {
            best
        };
        let alpha2 = if best2.0 > alpha {
            best2.0
        } else {
            alpha
        };
        if alpha2 >= beta {
            here
        } else {
            here + ab_loop_leaves(b, fp, ep, depth, moves, i + 1, alpha2, beta, best2)
        }
    }
}

pub open spec fn depth_of(depth: i32) -> nat {
    if depth <= 0 {
        0
    } else {
        depth as nat
    }
}

pub fn material_fn(_p: Point, f: Figure) -> (r: i32)
    ensures
        r as int == f.weight_of(),
{
    f.weight()
}

pub fn simple_positional_fn(p: Point, f: Figure) -> (r: i32)
    ensures
        r as int == positional(p, f),
{
    (f.color().code() as i32 - 64) + p.y() as i32 * 8 + (8 - p.x() as i32)
}

proof fn lemma_eval_point_bound(b: ByteBoard, p: Point)
    requires
        on_board_point(p),
    ensures
        -100 <= eval_point(b, p) <= 90200,
{
}

/// The sum over `pts` of material plus position.
fn eval_points(b: &ByteBoard, pts: &Vec<Point>) -> (r: i32)
    requires
        pts@.len() <= 16,
        forall|i: int| 0 <= i < pts@.len() ==> on_board_point(#[trigger] pts@[i]),
    ensures
        r as int == eval_sum(*b, pts@),
        -1600 <= r <= 16 * 90200,
{
    let mut sum: i32 = 0;
    let mut i: usize = 0;
    while i < pts.len()
        invariant
            pts@.len() <= 16,
            forall|j: int| 0 <= j < pts@.len() ==> on_board_point(#[trigger] pts@[j]),
            0 <= i <= pts@.len(),
            sum as int == eval_sum(*b, pts@.subrange(0, i as int)),
            -100 * i <= sum <= 90200 * i,
        decreases pts@.len() - i,
    {
        let p = pts[i];
        proof {
            lemma_eval_point_bound(*b, p);
            assert(pts@.subrange(0, i + 1).drop_last() =~= pts@.subrange(0, i as int));
        }
        let f = *b.point(p);
        sum = sum + material_fn(p, f) + simple_positional_fn(p, f);
        i += 1;
    }
    assert(pts@.subrange(0, pts@.len() as int) =~= pts@);
    sum
}

/// The static score of the controller's position, from the side to move.
pub fn evaluate_score(controller: &BoardController) -> (r: i32)
    requires
        controller.wf(),
    ensures
        r as int == static_score(
            controller.board,
            controller.friend_view().points(),
            controller.enemy_view().points(),
        ),
        -(SCORE_BOUND as int) <= r <= SCORE_BOUND,
{
    let fp = controller.friend_list().iter();
    let ep = controller.enemy_list().iter();
    proof {
        lemma_chain_len(controller.friend_view());
        lemma_chain_len(controller.enemy_view());
    }
    eval_points(&controller.board, &fp) - eval_points(&controller.board, &ep)
}

/// Plain negamax to `depth`: the best score for the side to move and the
/// move that reaches it. Every leaf evaluated bumps the position counter.
pub fn min_max_simple(controller: &mut BoardController, depth: i32) -> (r: (i32, Option<Move>))
    requires
        old(controller).wf(),
    ensures
        final(controller).wf(),
        final(controller).state() == old(controller).state(),
        final(controller).board == old(controller).board,
        final(controller).friend_color == old(controller).friend_color,
        final(controller).enemy_color == old(controller).enemy_color,
        final(controller).position_counter == counted(
            old(controller).position_counter as int,
            negamax_leaves(
                old(controller).board,
                old(controller).friend_view().points(),
                old(controller).enemy_view().points(),
                depth_of(depth),
            ) as int,
        ),
        depth <= 0 && old(controller).position_counter < i32::MAX
            ==> final(controller).position_counter == old(controller).position_counter + 1,
        (r.0 as int, r.1) == negamax(
            old(controller).board,
            old(controller).friend_view().points(),
            old(controller).enemy_view().points(),
            depth_of(depth),
        ),
        -(SCORE_BOUND as int) <= r.0 <= SCORE_BOUND,
    decreases depth_of(depth),
{
    if depth <= 0 {
        if controller.position_counter < i32::MAX {
            controller.position_counter = controller.position_counter + 1;
        }
        return (evaluate_score(controller), None);
    }
    let ghost s0 = *controller;
    let ghost fp = s0.friend_view().points();
    let ghost ep = s0.enemy_view().points();
    let move_list = controller.friend_movies();
    let moves = move_list.iter();
    proof {
        lemma_friend_moves_makeable(s0);
    }
    let mut best_score: i32 = -W_INFINITY;
    let mut best_move: Option<Move> = if moves.len() > 0 {
        Some(moves[0])
    } else {
        None
    };
    let mut i: usize = 0;
    while i < moves.len()
        invariant
            moves@ == list_moves(s0.board, fp),
            s0.wf(),
            fp == s0.friend_view().points(),
            ep == s0.enemy_view().points(),
            forall|j: int| 0 <= j < moves@.len() ==> s0.can_make(#[trigger] moves@[j]),
            forall|j: int| 0 <= j < moves@.len() ==> (#[trigger] moves@[j]).m_type != MoveType::SWAP,
            depth > 0,
            controller.wf(),
            controller.state() == s0.state(),
            controller.board == s0.board,
            controller.friend_color == s0.friend_color,
            controller.enemy_color == s0.enemy_color,
            controller.position_counter == counted(
                s0.position_counter as int,
                leaves_of(s0.board, fp, ep, depth as nat, i as nat) as int,
            ),
            0 <= i <= moves@.len(),
            (best_score as int, best_move) == best_of(s0.board, fp, ep, depth as nat, i as nat),
            -(SCORE_BOUND as int) <= best_score <= SCORE_BOUND,
        decreases moves@.len() - i,
    {
        let movement = moves[i];
        proof {
            assert(s0.can_make(moves@[i as int]));
            assert(controller.white_list@ == s0.white_list@);
            assert(controller.black_list@ == s0.black_list@);
        }
        let ghost before = *controller;
        let move_info = controller.make_move(&movement);
        proof {
            lemma_made_wf(before, *controller, movement, move_info);
        }
        let ghost after = *controller;
        controller.pass_move_to_enemy();
        let ghost c_before = controller.position_counter;
        let child = min_max_simple(controller, depth - 1);
        let cur_score = -child.0;
        proof {
            assert(depth_of((depth - 1) as i32) == (depth - 1) as nat);
            lemma_counted(
                s0.position_counter as int,
                leaves_of(s0.board, fp, ep, depth as nat, i as nat) as int,
                negamax_leaves(
                    board_after(s0.board, movement),
                    captured_points(ep, movement),
                    moved_points(fp, movement),
                    (depth - 1) as nat,
                ) as int,
            );
        }
        controller.pass_move_to_enemy();
        proof {
            assert(controller.white_list@ == after.white_list@);
            assert(controller.black_list@ == after.black_list@);
        }
        controller.unmake_move(move_info);
        proof {
            assert(controller.board.cells =~= s0.board.cells);
        }
        if cur_score > best_score {
            best_score = cur_score;
            best_move = Some(movement);
        }
        i += 1;
    }
    (best_score, best_move)
}

#[verifier::rlimit(60)]
/// Negamax to `depth` with alpha-beta pruning in the window
/// `(alpha, betta)`: moves are tried in positional order, each first with a
/// null-window probe and again with the full window when the probe falls
/// strictly inside it; the search stops as soon as alpha reaches betta.
pub fn alpha_betta(controller: &mut BoardController, depth: i32, alpha: i32, betta: i32) -> (r: (
    i32,
    Option<Move>,
))
    requires
        old(controller).wf(),
        -WINDOW_LIMIT <= alpha < WINDOW_LIMIT,
        -WINDOW_LIMIT <= betta <= WINDOW_LIMIT,
    ensures
        final(controller).wf(),
        final(controller).state() == old(controller).state(),
        final(controller).board == old(controller).board,
        final(controller).friend_color == old(controller).friend_color,
        final(controller).enemy_color == old(controller).enemy_color,
        final(controller).position_counter == counted(
            old(controller).position_counter as int,
            alpha_beta_leaves(
                old(controller).board,
                old(controller).friend_view().points(),
                old(controller).enemy_view().points(),
                depth_of(depth),
                alpha as int,
                betta as int,
            ) as int,
        ),
        depth <= 0 && old(controller).position_counter < i32::MAX
            ==> final(controller).position_counter == old(controller).position_counter + 1,
        (r.0 as int, r.1) == alpha_beta(
            old(controller).board,
            old(controller).friend_view().points(),
            old(controller).enemy_view().points(),
            depth_of(depth),
            alpha as int,
            betta as int,
        ),
        -WINDOW_LIMIT <= r.0 <= WINDOW_LIMIT,
    decreases depth_of(depth),
{
    if depth <= 0 {
        if controller.position_counter < i32::MAX {
            controller.position_counter = controller.position_counter + 1;
        }
        return (evaluate_score(controller), None);
    }
    let ghost s0 = *controller;
    let ghost fp = s0.friend_view().points();
    let ghost ep = s0.enemy_view().points();
    let mut move_list = controller.friend_movies();
    proof {
        lemma_friend_moves_makeable(s0);
        assert forall|j: int| 0 <= j < move_list.moves@.len() implies crate::movement::keyable(
            #[trigger] move_list.moves@[j],
        ) by {
            assert(s0.can_make(move_list.moves@[j]));
        }
    }
    move_list.sort_by(&controller.board);
    let moves = move_list.iter();
    proof {
        lemma_sorted_moves_permutes(s0.board, list_moves(s0.board, fp));
        assert forall|j: int| 0 <= j < moves@.len() implies s0.can_make(#[trigger] moves@[j])
            && moves@[j].m_type != MoveType::SWAP by {
            assert(moves@.contains(moves@[j]));
            let l = list_moves(s0.board, fp);
            assert(l.contains(moves@[j]));
            let k = choose|k: int| 0 <= k < l.len() && l[k] == moves@[j];
            assert(s0.can_make(l[k]));
        }
    }
    let mut cur_alpha = alpha;
    let ghost mut consumed: int = 0;
    let mut best_score: i32 = -W_INFINITY;
    let mut best_move: Option<Move> = if moves.len() > 0 {
        Some(moves[0])
    } else {
        None
    };
    let mut i: usize = 0;
    while i < moves.len()
        invariant
            moves@ == sorted_moves(s0.board, list_moves(s0.board, fp)),
            s0 == *old(controller),
            s0.wf(),
            fp == s0.friend_view().points(),
            ep == s0.enemy_view().points(),
            forall|j: int| 0 <= j < moves@.len() ==> s0.can_make(#[trigger] moves@[j]),
            forall|j: int| 0 <= j < moves@.len() ==> (#[trigger] moves@[j]).m_type != MoveType::SWAP,
            depth > 0,
            controller.wf(),
            controller.state() == s0.state(),
            controller.board == s0.board,
            controller.friend_color == s0.friend_color,
            controller.enemy_color == s0.enemy_color,
            consumed >= 0,
            controller.position_counter == counted(s0.position_counter as int, consumed),
            alpha_beta_leaves(s0.board, fp, ep, depth as nat, alpha as int, betta as int) == consumed
                + ab_loop_leaves(
                s0.board,
                fp,
                ep,
                depth as nat,
                moves@,
                i as int,
                cur_alpha as int,
                betta as int,
                (best_score as int, best_move),
            ),
            0 <= i <= moves@.len(),
            -WINDOW_LIMIT <= cur_alpha < WINDOW_LIMIT,
            -WINDOW_LIMIT <= betta <= WINDOW_LIMIT,
            -WINDOW_LIMIT <= best_score <= WINDOW_LIMIT,
            alpha_beta(s0.board, fp, ep, depth as nat, alpha as int, betta as int)
                == ab_loop(
                s0.board,
                fp,
                ep,
                depth as nat,
                moves@,
                i as int,
                cur_alpha as int,
                betta as int,
                (best_score as int, best_move),
            ),
        decreases moves@.len() - i,
    {
        let movement = moves[i];
        let ghost alpha_in = cur_alpha as int;
        let ghost best_in = (best_score as int, best_move);
        let ghost consumed_in = consumed;
        proof {
            assert(s0.can_make(moves@[i as int]));
            assert(controller.white_list@ == s0.white_list@);
            assert(controller.black_list@ == s0.black_list@);
        }
        let ghost before = *controller;
        let move_info = controller.make_move(&movement);
        proof {
            lemma_made_wf(before, *controller, movement, move_info);
        }
        let ghost after = *controller;
        controller.pass_move_to_enemy();
        let ghost b2 = board_after(s0.board, movement);
        let ghost fp2 = captured_points(ep, movement);
        let ghost ep2 = moved_points(fp, movement);
        proof {
            assert(controller.board == b2);
            assert(controller.friend_view().points() == fp2);
            assert(controller.enemy_view().points() == ep2);
        }
        let probe = alpha_betta(controller, depth - 1, -(cur_alpha + 1), -cur_alpha);
        proof {
            assert(depth_of((depth - 1) as i32) == (depth - 1) as nat);
            let lp = alpha_beta_leaves(b2, fp2, ep2, (depth - 1) as nat, -(alpha_in + 1), -alpha_in);
            lemma_counted(s0.position_counter as int, consumed, lp as int);
            consumed = consumed + lp;
        }
        let mut cur_score = -probe.0;
        if cur_score > cur_alpha && cur_score < betta {
            let full = alpha_betta(controller, depth - 1, -betta, -cur_alpha);
            proof {
                let lf = alpha_beta_leaves(b2, fp2, ep2, (depth - 1) as nat, -(betta as int), -alpha_in);
                lemma_counted(s0.position_counter as int, consumed, lf as int);
                consumed = consumed + lf;
            }
            cur_score = -full.0;
        }
        controller.pass_move_to_enemy();
        proof {
            assert(controller.white_list@ == after.white_list@);
            assert(controller.black_list@ == after.black_list@);
        }
        controller.unmake_move(move_info);
        proof {
            assert(controller.board.cells =~= s0.board.cells);
            assert(controller.state() == s0.state());
            assert(controller.board == s0.board);
        }
        if cur_score > best_score {
            best_score = cur_score;
            best_move = Some(movement);
        }
        if best_score > cur_alpha {
            cur_alpha = best_score;
        }
        proof {
            let d1 = (depth - 1) as nat;
            assert(depth_of((depth - 1) as i32) == d1);
            let pv = -alpha_beta(b2, fp2, ep2, d1, -(alpha_in + 1), -alpha_in).0;
            assert(pv == -probe.0);
            let sc = if alpha_in < pv && pv < betta {
                -alpha_beta(b2, fp2, ep2, d1, -(betta as int), -alpha_in).0
            } else {
                pv
            };
            assert(cur_score == sc);
            let best2 = if sc > best_in.0 {
                (sc, Some(movement))
            } else {
                best_in
            };
            assert((best_score as int, best_move) == best2);
            lemma_ab_unfold(s0.board, fp, ep, depth as nat, moves@, i as int, alpha_in, betta as int, best_in);
        }
        if cur_alpha >= betta {
            return (cur_alpha, best_move);
        }
        i += 1;
    }
    (best_score, best_move)
}

/// A way to pick a move for the side to move.
pub trait MoveSearch {
    fn find_best_move(&self, controller: &mut BoardController, depth: i32) -> (r: (i32, Option<Move>))
        requires
            old(controller).wf(),
        ensures
            final(controller).wf(),
            final(controller).state() == old(controller).state(),
            final(controller).friend_color == old(controller).friend_color,
            final(controller).enemy_color == old(controller).enemy_color,
            final(controller).position_counter >= old(controller).position_counter,
            picks_generated(
                old(controller).board,
                old(controller).friend_view().points(),
                depth,
                r.1,
            ),
    ;
}

/// The move a search returns: none at depth 0 or below; above, one of the
/// generated moves, and none only when there is none.
pub open spec fn picks_generated(b: ByteBoard, fp: Seq<Point>, depth: i32, m: Option<Move>) -> bool {
    &&& depth <= 0 ==> m is None
    &&& depth > 0 ==> (m is Some <==> list_moves(b, fp).len() > 0)
    &&& m matches Some(mv) ==> list_moves(b, fp).contains(mv)
}

proof fn lemma_best_of_move(b: ByteBoard, fp: Seq<Point>, ep: Seq<Point>, depth: nat, n: nat)
    requires
        depth > 0,
        n <= list_moves(b, fp).len(),
    ensures
        best_of(b, fp, ep, depth, n).1 is Some <==> list_moves(b, fp).len() > 0,
        best_of(b, fp, ep, depth, n).1 matches Some(mv) ==> list_moves(b, fp).contains(mv),
    decreases n,
{
    let l = list_moves(b, fp);
    if n > 0 {
        lemma_best_of_move(b, fp, ep, depth, (n - 1) as nat);
        assert(l.contains(l[n - 1]));
    } else if l.len() > 0 {
        assert(l.contains(l[0]));
    }
}

proof fn lemma_ab_loop_move(
    b: ByteBoard,
    fp: Seq<Point>,
    ep: Seq<Point>,
    depth: nat,
    moves: Seq<Move>,
    i: int,
    alpha: int,
    beta: int,
    best: (int, Option<Move>),
)
    requires
        best.1 is Some <==> moves.len() > 0,
        best.1 matches Some(mv) ==> moves.contains(mv),
    ensures
        ab_loop(b, fp, ep, depth, moves, i, alpha, beta, best).1 is Some <==> moves.len() > 0,
        ab_loop(b, fp, ep, depth, moves, i, alpha, beta, best).1 matches Some(mv) ==> moves.contains(
            mv,
        ),
    decreases depth, 0nat, moves.len() - i,
{
    if depth > 0 && 0 <= i < moves.len() {
        lemma_ab_unfold(b, fp, ep, depth, moves, i, alpha, beta, best);
        assert(moves.contains(moves[i]));
        let m = moves[i];
        let b2 = board_after(b, m);
        let fp2 = captured_points(ep, m);
        let ep2 = moved_points(fp, m);
        let probe = -alpha_beta(b2, fp2, ep2, (depth - 1) as nat, -(alpha + 1), -alpha).0;
        let score = if alpha < probe && probe < beta {
            -alpha_beta(b2, fp2, ep2, (depth - 1) as nat, -beta, -alpha).0
        } else {
            probe
        };
        let best2 = if score > best.0 {
            (score, Some(m))
        } else {
            best
        };
        let alpha2 = if best2.0 > alpha {
            best2.0
        } else {
            alpha
        };
        if alpha2 < beta {
            lemma_ab_loop_move(b, fp, ep, depth, moves, i + 1, alpha2, beta, best2);
        }
    }
}

/// Plain negamax.
#[derive(Default)]
pub struct MinMaxSimpleSearch {}

/// Negamax with alpha-beta pruning over the full window.
#[derive(Default)]
pub struct AlphaBetaSearch {}

impl MoveSearch for MinMaxSimpleSearch {
    fn find_best_move(&self, controller: &mut BoardController, depth: i32) -> (r: (i32, Option<Move>)) {
        let ghost s0 = *controller;
        let r = min_max_simple(controller, depth);
        proof {
            if depth > 0 {
                let fp = s0.friend_view().points();
                lemma_best_of_move(
                    s0.board,
                    fp,
                    s0.enemy_view().points(),
                    depth as nat,
                    list_moves(s0.board, fp).len(),
                );
            }
        }
        r
    }
}

impl MoveSearch for AlphaBetaSearch {
    fn find_best_move(&self, controller: &mut BoardController, depth: i32) -> (r: (i32, Option<Move>)) {
        let ghost s0 = *controller;
        let r = alpha_betta(controller, depth, -W_INFINITY, W_INFINITY);
        proof {
            if depth > 0 {
                let b = s0.board;
                let fp = s0.friend_view().points();
                let l = list_moves(b, fp);
                let ms = sorted_moves(b, l);
                lemma_sorted_moves_permutes(b, l);
                if ms.len() > 0 {
                    assert(ms.contains(ms[0]));
                }
                lemma_ab_loop_move(
                    b,
                    fp,
                    s0.enemy_view().points(),
                    depth as nat,
                    ms,
                    0,
                    -W_INFINITY as int,
                    W_INFINITY as int,
                    (-W_INFINITY as int, if ms.len() > 0 { Some(ms[0]) } else { None }),
                );
            }
        }
        r
    }
}

/// The static score is antisymmetric: seen from the other side it is
/// negated.
pub proof fn lemma_evaluate_antisymmetric(b: ByteBoard, fp: Seq<Point>, ep: Seq<Point>)
    ensures
        static_score(b, fp, ep) + static_score(b, ep, fp) == 0,
{
}

/// The negamax value of the child reached by `m`, seen from the mover.
pub open spec fn child_value(b: ByteBoard, fp: Seq<Point>, ep: Seq<Point>, depth: nat, m: Move) -> int {
    -negamax(board_after(b, m), captured_points(ep, m), moved_points(fp, m), (depth - 1) as nat).0
}

/// The largest child value over the first `n` of `ms`, and `-W_INFINITY`.
pub open spec fn max_value(
    b: ByteBoard,
    fp: Seq<Point>,
    ep: Seq<Point>,
    depth: nat,
    ms: Seq<Move>,
    n: int,
) -> int
    decreases n,
{
    if n <= 0 {
        -W_INFINITY as int
    } else {
        let p = max_value(b, fp, ep, depth, ms, n - 1);
        let c = child_value(b, fp, ep, depth, ms[n - 1]);
        if c > p {
            c
        } else {
            p
        }
    }
}

proof fn lemma_best_of_is_max(b: ByteBoard, fp: Seq<Point>, ep: Seq<Point>, depth: nat, n: nat)
    requires
        depth > 0,
        n <= list_moves(b, fp).len(),
    ensures
        best_of(b, fp, ep, depth, n).0 == max_value(b, fp, ep, depth, list_moves(b, fp), n as int),
    decreases n,
{
    if n > 0 {
        lemma_best_of_is_max(b, fp, ep, depth, (n - 1) as nat);
    }
}

proof fn lemma_max_value(b: ByteBoard, fp: Seq<Point>, ep: Seq<Point>, depth: nat, ms: Seq<Move>, n: int)
    requires
        0 <= n <= ms.len(),
    ensures
        max_value(b, fp, ep, depth, ms, n) >= -W_INFINITY,
        forall|k: int|
            0 <= k < n ==> child_value(b, fp, ep, depth, #[trigger] ms[k]) <= max_value(
                b,
                fp,
                ep,
                depth,
                ms,
                n,
            ),
        max_value(b, fp, ep, depth, ms, n) == -W_INFINITY || exists|k: int|
            0 <= k < n && child_value(b, fp, ep, depth, #[trigger] ms[k]) == max_value(
                b,
                fp,
                ep,
                depth,
                ms,
                n,
            ),
    decreases n,
{
    if n > 0 {
        lemma_max_value(b, fp, ep, depth, ms, n - 1);
        if max_value(b, fp, ep, depth, ms, n) != -W_INFINITY {
            if child_value(b, fp, ep, depth, ms[n - 1]) > max_value(b, fp, ep, depth, ms, n - 1) {
                assert(child_value(b, fp, ep, depth, ms[n - 1]) == max_value(b, fp, ep, depth, ms, n));
            } else {
                let k = choose|k: int|
                    0 <= k < n - 1 && child_value(b, fp, ep, depth, #[trigger] ms[k]) == max_value(
                        b,
                        fp,
                        ep,
                        depth,
                        ms,
                        n - 1,
                    );
            }
        }
    }
}

/// The largest child value does not depend on the order of the moves.
proof fn lemma_max_value_permuted(
    b: ByteBoard,
    fp: Seq<Point>,
    ep: Seq<Point>,
    depth: nat,
    m1: Seq<Move>,
    m2: Seq<Move>,
)
    requires
        m1.to_multiset() == m2.to_multiset(),
    ensures
        max_value(b, fp, ep, depth, m1, m1.len() as int) == max_value(b, fp, ep, depth, m2, m2.len() as int),
{
    broadcast use vstd::seq_lib::group_to_multiset_ensures;

    lemma_max_value(b, fp, ep, depth, m1, m1.len() as int);
    lemma_max_value(b, fp, ep, depth, m2, m2.len() as int);
    let r1 = max_value(b, fp, ep, depth, m1, m1.len() as int);
    let r2 = max_value(b, fp, ep, depth, m2, m2.len() as int);
    if r1 != -W_INFINITY {
        let k = choose|k: int| 0 <= k < m1.len() && child_value(b, fp, ep, depth, #[trigger] m1[k]) == r1;
        assert(m1.contains(m1[k]));
        assert(m2.to_multiset().count(m1[k]) > 0);
        let j = choose|j: int| 0 <= j < m2.len() && m2[j] == m1[k];
        assert(child_value(b, fp, ep, depth, m2[j]) <= r2);
    }
    if r2 != -W_INFINITY {
        let k = choose|k: int| 0 <= k < m2.len() && child_value(b, fp, ep, depth, #[trigger] m2[k]) == r2;
        assert(m2.contains(m2[k]));
        assert(m1.to_multiset().count(m2[k]) > 0);
        let j = choose|j: int| 0 <= j < m1.len() && m1[j] == m2[k];
        assert(child_value(b, fp, ep, depth, m1[j]) <= r1);
    }
}

/// What an alpha-beta result tells of the negamax value: an upper bound
/// when it is at most `alpha`, a lower bound when it is at least `beta`,
/// and the value itself in between.
pub proof fn lemma_ab_bounds(b: ByteBoard, fp: Seq<Point>, ep: Seq<Point>, depth: nat, alpha: int, beta: int)
    requires
        -W_INFINITY <= alpha < beta <= W_INFINITY,
    ensures
        ({
            let r = alpha_beta(b, fp, ep, depth, alpha, beta).0;
            let v = negamax(b, fp, ep, depth).0;
            &&& r <= alpha ==> v <= r
            &&& r >= beta ==> v >= r
            &&& alpha < r < beta ==> v == r
        }),
    decreases depth, 1nat, 0nat,
{
    if depth > 0 {
        let lm = list_moves(b, fp);
        let ms = sorted_moves(b, lm);
        crate::movement::lemma_sorted_moves_permutes(b, lm);
        lemma_best_of_is_max(b, fp, ep, depth, lm.len());
        lemma_max_value_permuted(b, fp, ep, depth, lm, ms);
        let best0 = (-W_INFINITY as int, if ms.len() > 0 { Some(ms[0]) } else { None });
        lemma_ab_loop(b, fp, ep, depth, ms, 0, alpha, alpha, beta, best0);
    }
}

proof fn lemma_ab_loop(
    b: ByteBoard,
    fp: Seq<Point>,
    ep: Seq<Point>,
    depth: nat,
    ms: Seq<Move>,
    i: int,
    alpha0: int,
    alpha: int,
    beta: int,
    best: (int, Option<Move>),
)
    requires
        depth > 0,
        0 <= i <= ms.len(),
        -W_INFINITY <= alpha0,
        best.0 >= -W_INFINITY,
        alpha == (if best.0 > alpha0 { best.0 } else { alpha0 }),
        alpha < beta <= W_INFINITY,
        max_value(b, fp, ep, depth, ms, i) <= best.0,
        best.0 > alpha0 ==> max_value(b, fp, ep, depth, ms, i) == best.0,
    ensures
        ({
            let r = ab_loop(b, fp, ep, depth, ms, i, alpha, beta, best).0;
            let v = max_value(b, fp, ep, depth, ms, ms.len() as int);
            &&& r <= alpha0 ==> v <= r
            &&& r >= beta ==> v >= r
            &&& alpha0 < r < beta ==> v == r
        }),
    decreases depth, 0nat, ms.len() - i,
{
    if i < ms.len() {
        let m = ms[i];
        let b2 = board_after(b, m);
        let fp2 = captured_points(ep, m);
        let ep2 = moved_points(fp, m);
        let d1 = (depth - 1) as nat;
        lemma_ab_unfold(b, fp, ep, depth, ms, i, alpha, beta, best);
        lemma_ab_bounds(b2, fp2, ep2, d1, -(alpha + 1), -alpha);
        let probe = -alpha_beta(b2, fp2, ep2, d1, -(alpha + 1), -alpha).0;
        let s = child_value(b, fp, ep, depth, m);
        if alpha < probe && probe < beta {
            lemma_ab_bounds(b2, fp2, ep2, d1, -beta, -alpha);
        }
        let score = if alpha < probe && probe < beta {
            -alpha_beta(b2, fp2, ep2, d1, -beta, -alpha).0
        } else {
            probe
        };
        assert((score >= beta && s >= score) || (score <= alpha && s <= score) || (alpha < score
            < beta && s == score));
        let best2 = if score > best.0 {
            (score, Some(m))
        } else {
            best
        };
        let alpha2 = if best2.0 > alpha {
            best2.0
        } else {
            alpha
        };
        lemma_max_value(b, fp, ep, depth, ms, ms.len() as int);
        assert(child_value(b, fp, ep, depth, ms[i]) <= max_value(b, fp, ep, depth, ms, ms.len() as int));
        if alpha2 < beta {
            lemma_ab_loop(b, fp, ep, depth, ms, i + 1, alpha0, alpha2, beta, best2);
        }
    }
}

/// Alpha-beta over the full window `(-W_INFINITY, W_INFINITY)` returns
/// the negamax score, for every position and depth whose negamax score is
/// below `W_INFINITY`.
pub proof fn lemma_alpha_beta_matches_negamax(b: ByteBoard, fp: Seq<Point>, ep: Seq<Point>, depth: nat)
    requires
        negamax(b, fp, ep, depth).0 < W_INFINITY,
    ensures
        alpha_beta(b, fp, ep, depth, -W_INFINITY as int, W_INFINITY as int).0 == negamax(
            b,
            fp,
            ep,
            depth,
        ).0,
{
    lemma_ab_bounds(b, fp, ep, depth, -W_INFINITY as int, W_INFINITY as int);
    if depth > 0 {
        let lm = list_moves(b, fp);
        lemma_best_of_is_max(b, fp, ep, depth, lm.len());
        lemma_max_value(b, fp, ep, depth, lm, lm.len() as int);
    }
}

} // verus!
