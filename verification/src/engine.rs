//! The solver: depth-bounded negamax with alpha-beta pruning.
//!
//! Both solvers score from the side to move's perspective.  The weak solver
//! reports only the outcome direction and its distance (a win in `k` plies
//! from depth `d` scores `d - k + 1`); the strong solver scores horizon
//! leaves with the material heuristic and keeps mate scores beyond 99.
//!
//! The reference value of a search is given by the spec functions
//! [`weak_value`] and [`strong_value`]; each solver is proved to return
//! exactly that value whenever it lies inside the alpha-beta window
//! (fail-soft: outside the window the result still bounds it).  The chosen
//! move is pinned too: the single forced reply when there is one, the
//! lowest-index threatened square when the position is lost to a double
//! threat, and otherwise — inside the window — the principal variation
//! [`weak_pv`]/[`strong_pv`], the earliest best column in the fixed search
//! order.

use crate::bits::nth;
use crate::bits::popcnt;
use crate::bits::popcount;
use crate::board::BitBoard;
use crate::board::wins;
use vstd::prelude::*;

verus! {

/// The fixed search order: centre column first.
pub open spec fn search_order(k: int) -> u64 {
    if k == 0 {
        3
    } else if k == 1 {
        2
    } else if k == 2 {
        4
    } else if k == 3 {
        1
    } else if k == 4 {
        5
    } else if k == 5 {
        0
    } else {
        6
    }
}

/// Where a column sits in the search order.
pub open spec fn order_index(c: int) -> int {
    if c == 3 {
        0
    } else if c == 2 {
        1
    } else if c == 4 {
        2
    } else if c == 1 {
        3
    } else if c == 5 {
        4
    } else if c == 0 {
        5
    } else {
        6
    }
}

fn order_col(k: usize) -> (r: u64)
    requires
        k < 7,
    ensures
        r == search_order(k as int),
        r < 7,
{
    if k == 0 {
        3
    } else if k == 1 {
        2
    } else if k == 2 {
        4
    } else if k == 3 {
        1
    } else if k == 4 {
        5
    } else if k == 5 {
        0
    } else {
        6
    }
}

/// The weak game value of a position at a given depth: minus one minus the
/// depth when the opponent has already won, zero at the horizon, minus the
/// depth when two replies are forced at once, and otherwise the negamax
/// maximum over the children (through the single forced reply when there is
/// one).
pub open spec fn weak_value(b: BitBoard, depth: int) -> int
    decreases depth, 1int, 0int,
{
    if wins(b.opp_spec()) {
        -1 - depth
    } else if depth <= 0 {
        0
    } else if popcnt(b.forced_spec()) >= 2 {
        -depth
    } else if popcnt(b.forced_spec()) == 1 {
        -weak_value(b.play_spec(b.forced_spec()), depth - 1)
    } else {
        weak_best(b, depth, 0)
    }
}

/// The best negamax score over the children from search-order index `k` on;
/// `i32::MIN` when no column from `k` on has a legal move.
pub open spec fn weak_best(b: BitBoard, depth: int, k: int) -> int
    decreases depth, 0int, 7 - k,
{
    if k >= 7 || depth <= 0 {
        i32::MIN as int
    } else {
        let m = b.col_move_spec(search_order(k) as int);
        let rest = weak_best(b, depth, k + 1);
        if m == 0 {
            rest
        } else {
            let s = -weak_value(b.play_spec(m), depth - 1);
            if s >= rest {
                s
            } else {
                rest
            }
        }
    }
}

/// The strong game value: as the weak one, but the horizon scores by the
/// material heuristic, a finished game scores minus 100 minus the depth, and
/// a double threat minus 99 minus the depth.
pub open spec fn strong_value(b: BitBoard, depth: int) -> int
    decreases depth, 1int, 0int,
{
    if wins(b.opp_spec()) {
        -100 - depth
    } else if depth <= 0 {
        b.heuristic2_spec()
    } else if popcnt(b.forced_spec()) >= 2 {
        -99 - depth
    } else if popcnt(b.forced_spec()) == 1 {
        -strong_value(b.play_spec(b.forced_spec()), depth - 1)
    } else {
        strong_best(b, depth, 0)
    }
}

/// The strong analogue of [`weak_best`].
pub open spec fn strong_best(b: BitBoard, depth: int, k: int) -> int
    decreases depth, 0int, 7 - k,
{
    if k >= 7 || depth <= 0 {
        i32::MIN as int
    } else {
        let m = b.col_move_spec(search_order(k) as int);
        let rest = strong_best(b, depth, k + 1);
        if m == 0 {
            rest
        } else {
            let s = -strong_value(b.play_spec(m), depth - 1);
            if s >= rest {
                s
            } else {
                rest
            }
        }
    }
}

/// The weak principal-variation move: the move of the earliest column in
/// the search order attaining the children's maximum — the tie-break among
/// equal scores that the fixed search order decides.
pub open spec fn weak_pv(b: BitBoard, depth: int, k: int) -> u64
    decreases 7 - k,
{
    if k >= 7 || depth <= 0 {
        0
    } else {
        let m = b.col_move_spec(search_order(k) as int);
        if m != 0 && -weak_value(b.play_spec(m), depth - 1) >= weak_best(b, depth, k + 1) {
            m
        } else {
            weak_pv(b, depth, k + 1)
        }
    }
}

/// The strong analogue of [`weak_pv`].
pub open spec fn strong_pv(b: BitBoard, depth: int, k: int) -> u64
    decreases 7 - k,
{
    if k >= 7 || depth <= 0 {
        0
    } else {
        let m = b.col_move_spec(search_order(k) as int);
        if m != 0 && -strong_value(b.play_spec(m), depth - 1) >= strong_best(b, depth, k + 1) {
            m
        } else {
            strong_pv(b, depth, k + 1)
        }
    }
}

/// The children's maximum is bounded by any bound on every child score.
proof fn lemma_weak_best_bounded(b: BitBoard, depth: int, k: int, x: int)
    requires
        0 <= k <= 7,
        1 <= depth,
        i32::MIN as int <= x,
        forall|j: int|
            k <= j < 7 ==> b.col_move_spec(search_order(j) as int) == 0 || -weak_value(
                b.play_spec(b.col_move_spec(search_order(j) as int)),
                depth - 1,
            ) <= x,
    ensures
        weak_best(b, depth, k) <= x,
    decreases 7 - k,
{
    if k < 7 {
        lemma_weak_best_bounded(b, depth, k + 1, x);
    }
}

/// The principal variation picks the earliest column whose score beats every
/// earlier one and is not beaten later.
proof fn lemma_weak_pv_from(b: BitBoard, depth: int, k: int, kk: int)
    requires
        1 <= depth,
        0 <= k <= kk < 7,
        b.col_move_spec(search_order(kk) as int) != 0,
        -weak_value(b.play_spec(b.col_move_spec(search_order(kk) as int)), depth - 1) >= weak_best(
            b,
            depth,
            kk + 1,
        ),
        forall|j: int|
            k <= j < kk ==> b.col_move_spec(search_order(j) as int) == 0 || -weak_value(
                b.play_spec(b.col_move_spec(search_order(j) as int)),
                depth - 1,
            ) < -weak_value(b.play_spec(b.col_move_spec(search_order(kk) as int)), depth - 1),
    ensures
        weak_pv(b, depth, k) == b.col_move_spec(search_order(kk) as int),
    decreases kk - k,
{
    if k < kk {
        let m = b.col_move_spec(search_order(k) as int);
        if m != 0 {
            // The later best column caps the tail maximum from below, so
            // this column's strictly smaller score does not get picked.
            lemma_weak_best_reaches(b, depth, k + 1, kk);
        }
        lemma_weak_pv_from(b, depth, k + 1, kk);
    }
}

/// The strong analogue of [`lemma_weak_best_bounded`].
proof fn lemma_strong_best_bounded(b: BitBoard, depth: int, k: int, x: int)
    requires
        0 <= k <= 7,
        1 <= depth,
        i32::MIN as int <= x,
        forall|j: int|
            k <= j < 7 ==> b.col_move_spec(search_order(j) as int) == 0 || -strong_value(
                b.play_spec(b.col_move_spec(search_order(j) as int)),
                depth - 1,
            ) <= x,
    ensures
        strong_best(b, depth, k) <= x,
    decreases 7 - k,
{
    if k < 7 {
        lemma_strong_best_bounded(b, depth, k + 1, x);
    }
}

/// The strong analogue of [`lemma_weak_pv_from`].
proof fn lemma_strong_pv_from(b: BitBoard, depth: int, k: int, kk: int)
    requires
        1 <= depth,
        0 <= k <= kk < 7,
        b.col_move_spec(search_order(kk) as int) != 0,
        -strong_value(b.play_spec(b.col_move_spec(search_order(kk) as int)), depth - 1)
            >= strong_best(b, depth, kk + 1),
        forall|j: int|
            k <= j < kk ==> b.col_move_spec(search_order(j) as int) == 0 || -strong_value(
                b.play_spec(b.col_move_spec(search_order(j) as int)),
                depth - 1,
            ) < -strong_value(b.play_spec(b.col_move_spec(search_order(kk) as int)), depth - 1),
    ensures
        strong_pv(b, depth, k) == b.col_move_spec(search_order(kk) as int),
    decreases kk - k,
{
    if k < kk {
        let m = b.col_move_spec(search_order(k) as int);
        if m != 0 {
            lemma_strong_best_reaches(b, depth, k + 1, kk);
        }
        lemma_strong_pv_from(b, depth, k + 1, kk);
    }
}

/// The single forced reply is a legal single-bit move.
proof fn lemma_forced_one(b: BitBoard)
    requires
        b.bits_ok(),
        b.gravity_ok(),
        popcnt(b.forced_spec()) == 1,
    ensures
        b.forced_spec() != 0,
        b.forced_spec() & b.legal_spec() == b.forced_spec(),
{
    let f = b.forced_spec();
    if f == 0 {
        assert(popcnt(0u64) == 0);
    }
    crate::board::lemma_and_subset(crate::board::wspots(b.opp_spec()), b.legal_spec());
}

/// Weak scores stay within one of the depth.
pub proof fn lemma_weak_value_range(b: BitBoard, depth: int)
    requires
        b.bits_ok(),
        b.gravity_ok(),
        0 <= depth,
        depth <= 42 - popcnt(b.occupied),
    ensures
        -depth - 1 <= weak_value(b, depth) <= depth + 1,
    decreases depth, 1int, 0int,
{
    if wins(b.opp_spec()) || depth <= 0 {
    } else if popcnt(b.forced_spec()) >= 2 {
    } else if popcnt(b.forced_spec()) == 1 {
        lemma_forced_one(b);
        b.lemma_play_wf(b.forced_spec());
        lemma_weak_value_range(b.play_spec(b.forced_spec()), depth - 1);
    } else {
        lemma_weak_best_range(b, depth, 0);
        lemma_weak_best_found(b, depth);
    }
}

/// Every child score lies within the depth, so the running maximum is either
/// untouched or within it.
pub proof fn lemma_weak_best_range(b: BitBoard, depth: int, k: int)
    requires
        b.bits_ok(),
        b.gravity_ok(),
        1 <= depth,
        depth <= 42 - popcnt(b.occupied),
        0 <= k <= 7,
    ensures
        weak_best(b, depth, k) == i32::MIN as int || -depth <= weak_best(b, depth, k) <= depth,
    decreases depth, 0int, 7 - k,
{
    if k < 7 {
        lemma_weak_best_range(b, depth, k + 1);
        let c = search_order(k) as int;
        b.lemma_col_move(c);
        let m = b.col_move_spec(c);
        if m != 0 {
            b.lemma_play_wf(m);
            lemma_weak_value_range(b.play_spec(m), depth - 1);
        }
    }
}

/// On a board that is not full, some child is scored, so the maximum is a
/// real score.
pub proof fn lemma_weak_best_found(b: BitBoard, depth: int)
    requires
        b.bits_ok(),
        b.gravity_ok(),
        1 <= depth,
        depth <= 42 - popcnt(b.occupied),
    ensures
        weak_best(b, depth, 0) > i32::MIN as int,
    decreases depth, 0int, 8int,
{
    b.lemma_stone_counts();
    b.lemma_board_not_full();
    let c = choose|c: int| 0 <= c < 7 && b.col_move_spec(c) != 0;
    assert(search_order(order_index(c)) == c);
    lemma_weak_best_reaches(b, depth, 0, order_index(c));
    b.lemma_col_move(c);
    b.lemma_play_wf(b.col_move_spec(c));
    lemma_weak_value_range(b.play_spec(b.col_move_spec(c)), depth - 1);
}

/// The maximum from index `k` dominates the score of any later child.
proof fn lemma_weak_best_reaches(b: BitBoard, depth: int, k: int, kk: int)
    requires
        0 <= k <= kk < 7,
        1 <= depth,
        b.col_move_spec(search_order(kk) as int) != 0,
    ensures
        weak_best(b, depth, k) >= -weak_value(
            b.play_spec(b.col_move_spec(search_order(kk) as int)),
            depth - 1,
        ),
    decreases kk - k,
{
    if k < kk {
        lemma_weak_best_reaches(b, depth, k + 1, kk);
    }
}

/// The larger of two values.
pub open spec fn max_i(a: int, b: int) -> int {
    if a >= b {
        a
    } else {
        b
    }
}

/// Chooses the lowest-index move out of a word of possible moves.
fn choose_move(moves: u64) -> (r: u64)
    requires
        moves != 0,
    ensures
        r != 0,
        popcnt(r) == 1,
        r & moves == r,
        r == 1u64 << (vstd::std_specs::bits::u64_trailing_zeros(moves) as u64),
{
    proof {
        vstd::std_specs::bits::axiom_u64_trailing_zeros(moves);
    }
    let zeros = moves.trailing_zeros();
    let mask = 1u64 << zeros;
    proof {
        let tz = vstd::std_specs::bits::u64_trailing_zeros(moves);
        assert(moves & (1u64 << tz) == 1u64 << tz && 1u64 << tz != 0 && ((moves & (1u64 << tz)) & moves)
            == moves & (1u64 << tz)) by (bit_vector)
            requires
                tz < 64 && (moves >> tz) & 1u64 == 1u64,
        ;
        crate::bits::lemma_popcnt_single(tz as u64);
    }
    moves & mask
}

/// Weak negamax with alpha-beta pruning; returns a score and the chosen
/// move.  Fail-soft: the score equals [`weak_value`] whenever it falls
/// strictly inside the window, bounds it from the matching side otherwise.
pub fn solve_weak(start: BitBoard, depth: u8, alpha: i32, beta: i32, num_nodes: &mut u64) -> (r: (
    i32,
    u64,
))
    requires
        start.bits_ok(),
        start.gravity_ok(),
        depth as int <= 42 - popcnt(start.occupied),
        i32::MIN + 2 <= alpha,
        alpha < beta,
        beta <= i32::MAX - 1,
    ensures
        -(depth as int) - 1 <= r.0 as int <= depth as int + 1,
        r.0 <= alpha ==> weak_value(start, depth as int) <= r.0,
        r.0 >= beta ==> weak_value(start, depth as int) >= r.0,
        alpha < r.0 < beta ==> r.0 == weak_value(start, depth as int),
        wins(start.opp_spec()) ==> r.0 == -1 - depth as int && r.1 == 0,
        !wins(start.opp_spec()) && depth == 0 ==> r.0 == 0 && r.1 == 0,
        !wins(start.opp_spec()) && depth > 0 ==> r.1 != 0 && popcnt(r.1) == 1 && r.1
            & start.legal_spec() == r.1,
        alpha < r.0 < beta && !wins(start.opp_spec()) && depth > 0 && popcnt(start.forced_spec())
            <= 1 ==> r.0 == -weak_value(start.play_spec(r.1), depth as int - 1),
        !wins(start.opp_spec()) && depth > 0 && popcnt(start.forced_spec()) >= 2 ==> r.0 == -(
        depth as int) && r.1 == 1u64 << (vstd::std_specs::bits::u64_trailing_zeros(
            start.forced_spec(),
        ) as u64) && r.1 & start.forced_spec() == r.1,
        !wins(start.opp_spec()) && depth > 0 && popcnt(start.forced_spec()) == 1 ==> r.1
            == start.forced_spec(),
        alpha < r.0 < beta && !wins(start.opp_spec()) && depth > 0 && popcnt(start.forced_spec())
            == 0 ==> r.1 == weak_pv(start, depth as int, 0),
        *final(num_nodes) >= *old(num_nodes),
        wins(start.opp_spec()) ==> *final(num_nodes) == *old(num_nodes),
        !wins(start.opp_spec()) && *old(num_nodes) < u64::MAX ==> *final(num_nodes) > *old(
            num_nodes,
        ),
        !wins(start.opp_spec()) && (depth == 0 || popcnt(start.forced_spec()) >= 2) && *old(
            num_nodes,
        ) < u64::MAX ==> *final(num_nodes) == *old(num_nodes) + 1,
    decreases depth,
{
    let ghost d = depth as int;
    let ghost v = weak_value(start, d);
    if start.has_lost() {
        return (-1 - depth as i32, 0);
    }
    if *num_nodes < u64::MAX {
        *num_nodes = *num_nodes + 1;
    }

    // No conclusion found within the horizon --> draw
    if depth == 0 {
        return (0, 0);
    }

    let forced = start.forced_moves();
    if forced > 0 {
        let moves = popcount(forced);
        if moves >= 2 {
            // The opponent threatens two squares; only one can be blocked.
            let m = choose_move(forced);
            proof {
                crate::board::lemma_and_subset(
                    crate::board::wspots(start.opp_spec()),
                    start.legal_spec(),
                );
                crate::board::lemma_subset_trans(m, forced, start.legal_spec());
            }
            return (-(depth as i32), m);
        }
        proof {
            crate::bits::lemma_popcnt_pos(forced);
            lemma_forced_one(start);
            start.lemma_play_wf(forced);
            lemma_weak_value_range(start.play_spec(forced), d - 1);
        }
        let new_board = start.play_field(forced);
        let (score0, _) = solve_weak(new_board, depth - 1, -beta, -alpha, num_nodes);
        let score = -score0;
        return (score, forced);
    }
    proof {
        assert(popcnt(0u64) == 0);
        assert(v == weak_best(start, d, 0));
        lemma_weak_best_range(start, d, 0);
    }

    let possible_moves = start.all_possible_moves();
    let mut max_score: i32 = i32::MIN;
    let mut best_move: u64 = 0;
    let mut cur_alpha: i32 = alpha;
    let ghost mut true_max: int = i32::MIN as int;
    let ghost mut pv_idx: int = 0;
    let ghost n1: u64 = *num_nodes;

    let mut k: usize = 0;
    while k < 7
        invariant_except_break
            (max_score as int) < beta as int,
        invariant
            start.bits_ok(),
            start.gravity_ok(),
            !wins(start.opp_spec()),
            1 <= depth,
            depth as int <= 42 - popcnt(start.occupied),
            popcnt(start.forced_spec()) == 0,
            i32::MIN + 2 <= alpha,
            alpha < beta,
            beta <= i32::MAX - 1,
            possible_moves == start.legal_spec(),
            k <= 7,
            d == depth as int,
            v == weak_value(start, d),
            v == max_i(true_max, weak_best(start, d, k as int)),
            cur_alpha as int == max_i(alpha as int, max_score as int),
            max_score == i32::MIN || -d <= max_score as int <= d,
            true_max == i32::MIN as int || -d <= true_max <= d,
            max_score as int <= max_i(alpha as int, true_max),
            (max_score as int) < beta as int ==> true_max <= max_score as int,
            (max_score == i32::MIN) == (true_max == i32::MIN as int),
            (best_move == 0) == (max_score == i32::MIN),
            best_move != 0 ==> popcnt(best_move) == 1 && best_move & start.legal_spec()
                == best_move,
            alpha < max_score && (max_score as int) < beta as int ==> max_score as int
                == -weak_value(start.play_spec(best_move), d - 1),
            forall|kk: int|
                0 <= kk < k ==> start.col_move_spec(search_order(kk) as int) == 0 || -weak_value(
                    start.play_spec(start.col_move_spec(search_order(kk) as int)),
                    d - 1,
                ) <= true_max,
            alpha < max_score && (max_score as int) < beta as int ==> 0 <= pv_idx < k && best_move
                == start.col_move_spec(search_order(pv_idx) as int) && (forall|j: int|
                0 <= j < pv_idx ==> start.col_move_spec(search_order(j) as int) == 0
                    || -weak_value(
                    start.play_spec(start.col_move_spec(search_order(j) as int)),
                    d - 1,
                ) < max_score as int),
            *num_nodes >= n1,
        ensures
            k == 7 || (max_score as int >= beta as int && true_max >= max_score as int
                && max_score != i32::MIN),
        decreases 7 - k,
    {
        let col = order_col(k);
        let to_play = BitBoard::move_in_row(possible_moves, col);
        proof {
            start.lemma_col_move(col as int);
            assert(to_play == start.col_move_spec(search_order(k as int) as int));
        }

        // No valid move in this column
        if to_play == 0 {
            proof {
                assert(weak_best(start, d, k as int) == weak_best(start, d, k as int + 1));
            }
            k = k + 1;
            continue ;
        }
        proof {
            start.lemma_play_wf(to_play);
            lemma_weak_value_range(start.play_spec(to_play), d - 1);
        }

        let new_board = start.play_field(to_play);
        let (score0, _) = solve_weak(new_board, depth - 1, -beta, -cur_alpha, num_nodes);
        let score = -score0;
        let ghost vc = weak_value(start.play_spec(to_play), d - 1);
        proof {
            // Fail-soft facts for this child, seen from this side.
            assert(score as int >= beta as int ==> -vc >= score as int);
            assert(score <= cur_alpha ==> -vc <= score as int);
            assert(cur_alpha < score && (score as int) < beta as int ==> score as int == -vc);
            assert(weak_best(start, d, k as int) == max_i(-vc, weak_best(start, d, k as int + 1)));
        }
        let ghost old_max_score = max_score;
        proof {
            if score > max_score && alpha < score && (score as int) < beta as int {
                // Every earlier child scores strictly below this one, so the
                // updated move is still the earliest maximum.
                assert forall|j: int| 0 <= j < k implies start.col_move_spec(
                    search_order(j) as int,
                ) == 0 || -weak_value(
                    start.play_spec(start.col_move_spec(search_order(j) as int)),
                    d - 1,
                ) < score as int by {}
            }
            true_max = max_i(true_max, -vc);
            if score > max_score {
                pv_idx = k as int;
            }
        }

        if score > max_score {
            max_score = score;
            best_move = to_play;
        }
        if cur_alpha < score {
            cur_alpha = score;
        }

        if cur_alpha >= beta {
            proof {
                assert(score > old_max_score);
                assert(max_score == score);
                assert(-vc >= score as int);
                assert(true_max >= max_score as int);
            }
            break ;
        }
        k = k + 1;
    }
    proof {
        if k == 7 && (max_score as int) < beta as int {
            assert(weak_best(start, d, 7) == i32::MIN as int);
            if true_max == i32::MIN as int {
                // Some column must have a legal move: the board is not full.
                start.lemma_stone_counts();
                start.lemma_board_not_full();
                let c = choose|c: int| 0 <= c < 7 && start.col_move_spec(c) != 0;
                assert(search_order(order_index(c)) == c);
                assert(start.col_move_spec(search_order(order_index(c)) as int) != 0);
                start.lemma_col_move(c);
                start.lemma_play_wf(start.col_move_spec(c));
                lemma_weak_value_range(start.play_spec(start.col_move_spec(c)), d - 1);
                assert(false);
            }
            assert(v == true_max);
            lemma_weak_value_range(start, d);
            if alpha < max_score {
                // Exact window: the recorded move is the principal variation.
                assert(max_score as int == true_max);
                lemma_weak_best_bounded(start, d, pv_idx + 1, true_max);
                lemma_weak_pv_from(start, d, 0, pv_idx);
            }
        }
    }
    (max_score, best_move)
}

/// Strong scores stay within 100 of the depth.
pub proof fn lemma_strong_value_range(b: BitBoard, depth: int)
    requires
        b.wf(),
        0 <= depth,
        depth <= 42 - popcnt(b.occupied),
    ensures
        -100 - depth <= strong_value(b, depth) <= 100 + depth,
    decreases depth, 1int, 0int,
{
    if wins(b.opp_spec()) || depth <= 0 {
        if !wins(b.opp_spec()) && depth <= 0 {
            b.lemma_heuristic2_range();
        }
    } else if popcnt(b.forced_spec()) >= 2 {
    } else if popcnt(b.forced_spec()) == 1 {
        lemma_forced_one(b);
        b.lemma_play_wf(b.forced_spec());
        lemma_strong_value_range(b.play_spec(b.forced_spec()), depth - 1);
    } else {
        lemma_strong_best_range(b, depth, 0);
        lemma_strong_best_found(b, depth);
    }
}

/// Every strong child score lies within 99 of the depth.
pub proof fn lemma_strong_best_range(b: BitBoard, depth: int, k: int)
    requires
        b.wf(),
        1 <= depth,
        depth <= 42 - popcnt(b.occupied),
        0 <= k <= 7,
    ensures
        strong_best(b, depth, k) == i32::MIN as int || -99 - depth <= strong_best(b, depth, k) <= 99
            + depth,
    decreases depth, 0int, 7 - k,
{
    if k < 7 {
        lemma_strong_best_range(b, depth, k + 1);
        let c = search_order(k) as int;
        b.lemma_col_move(c);
        let m = b.col_move_spec(c);
        if m != 0 {
            b.lemma_play_wf(m);
            lemma_strong_value_range(b.play_spec(m), depth - 1);
        }
    }
}

/// On a board that is not full, the strong maximum is a real score.
pub proof fn lemma_strong_best_found(b: BitBoard, depth: int)
    requires
        b.wf(),
        1 <= depth,
        depth <= 42 - popcnt(b.occupied),
    ensures
        strong_best(b, depth, 0) > i32::MIN as int,
    decreases depth, 0int, 8int,
{
    b.lemma_stone_counts();
    b.lemma_board_not_full();
    let c = choose|c: int| 0 <= c < 7 && b.col_move_spec(c) != 0;
    assert(search_order(order_index(c)) == c);
    lemma_strong_best_reaches(b, depth, 0, order_index(c));
    b.lemma_col_move(c);
    b.lemma_play_wf(b.col_move_spec(c));
    lemma_strong_value_range(b.play_spec(b.col_move_spec(c)), depth - 1);
}

proof fn lemma_strong_best_reaches(b: BitBoard, depth: int, k: int, kk: int)
    requires
        0 <= k <= kk < 7,
        1 <= depth,
        b.col_move_spec(search_order(kk) as int) != 0,
    ensures
        strong_best(b, depth, k) >= -strong_value(
            b.play_spec(b.col_move_spec(search_order(kk) as int)),
            depth - 1,
        ),
    decreases kk - k,
{
    if k < kk {
        lemma_strong_best_reaches(b, depth, k + 1, kk);
    }
}

/// Strong negamax with alpha-beta pruning; returns a score and the chosen
/// move.  Fail-soft against [`strong_value`], as [`solve_weak`] is against
/// [`weak_value`].
pub fn solve_strong(start: BitBoard, depth: u8, alpha: i32, beta: i32, num_nodes: &mut u64) -> (r: (
    i32,
    u64,
))
    requires
        start.wf(),
        depth as int <= 42 - popcnt(start.occupied),
        i32::MIN + 2 <= alpha,
        alpha < beta,
        beta <= i32::MAX - 1,
    ensures
        -100 - depth as int <= r.0 as int <= 100 + depth as int,
        r.0 <= alpha ==> strong_value(start, depth as int) <= r.0,
        r.0 >= beta ==> strong_value(start, depth as int) >= r.0,
        alpha < r.0 < beta ==> r.0 == strong_value(start, depth as int),
        wins(start.opp_spec()) ==> r.0 == -100 - depth as int && r.1 == 0,
        !wins(start.opp_spec()) && depth == 0 ==> r.0 == start.heuristic2_spec() && r.1 == 0,
        !wins(start.opp_spec()) && depth > 0 ==> r.1 != 0 && popcnt(r.1) == 1 && r.1
            & start.legal_spec() == r.1,
        alpha < r.0 < beta && !wins(start.opp_spec()) && depth > 0 && popcnt(start.forced_spec())
            <= 1 ==> r.0 == -strong_value(start.play_spec(r.1), depth as int - 1),
        !wins(start.opp_spec()) && depth > 0 && popcnt(start.forced_spec()) >= 2 ==> r.0 == -99 - (
        depth as int) && r.1 == 1u64 << (vstd::std_specs::bits::u64_trailing_zeros(
            start.forced_spec(),
        ) as u64) && r.1 & start.forced_spec() == r.1,
        !wins(start.opp_spec()) && depth > 0 && popcnt(start.forced_spec()) == 1 ==> r.1
            == start.forced_spec(),
        alpha < r.0 < beta && !wins(start.opp_spec()) && depth > 0 && popcnt(start.forced_spec())
            == 0 ==> r.1 == strong_pv(start, depth as int, 0),
        *final(num_nodes) >= *old(num_nodes),
        wins(start.opp_spec()) ==> *final(num_nodes) == *old(num_nodes),
        !wins(start.opp_spec()) && *old(num_nodes) < u64::MAX ==> *final(num_nodes) > *old(
            num_nodes,
        ),
        !wins(start.opp_spec()) && (depth == 0 || popcnt(start.forced_spec()) >= 2) && *old(
            num_nodes,
        ) < u64::MAX ==> *final(num_nodes) == *old(num_nodes) + 1,
    decreases depth,
{
    let ghost d = depth as int;
    let ghost v = strong_value(start, d);
    if start.has_lost() {
        // 100 as a high value to keep a proven win beyond the heuristic.
        return (-100 - depth as i32, 0);
    }
    if *num_nodes < u64::MAX {
        *num_nodes = *num_nodes + 1;
    }

    // The horizon: score the leaf positionally.
    if depth == 0 {
        proof {
            start.lemma_heuristic2_range();
        }
        let score = start.heuristic_2();
        return (score, 0);
    }

    let forced = start.forced_moves();
    if forced > 0 {
        let moves = popcount(forced);
        if moves >= 2 {
            // The opponent threatens two squares; only one can be blocked.
            let m = choose_move(forced);
            proof {
                crate::board::lemma_and_subset(
                    crate::board::wspots(start.opp_spec()),
                    start.legal_spec(),
                );
                crate::board::lemma_subset_trans(m, forced, start.legal_spec());
            }
            return (-99 - depth as i32, m);
        }
        proof {
            crate::bits::lemma_popcnt_pos(forced);
            lemma_forced_one(start);
            start.lemma_play_wf(forced);
            lemma_strong_value_range(start.play_spec(forced), d - 1);
        }
        let new_board = start.play_field(forced);
        let (score0, _) = solve_strong(new_board, depth - 1, -beta, -alpha, num_nodes);
        let score = -score0;
        return (score, forced);
    }
    proof {
        assert(popcnt(0u64) == 0);
        assert(v == strong_best(start, d, 0));
        lemma_strong_best_range(start, d, 0);
    }

    let possible_moves = start.all_possible_moves();
    let mut max_score: i32 = i32::MIN;
    let mut best_move: u64 = 0;
    let mut cur_alpha: i32 = alpha;
    let ghost mut true_max: int = i32::MIN as int;
    let ghost mut pv_idx: int = 0;
    let ghost n1: u64 = *num_nodes;

    let mut k: usize = 0;
    while k < 7
        invariant_except_break
            (max_score as int) < beta as int,
        invariant
            start.wf(),
            !wins(start.opp_spec()),
            1 <= depth,
            depth as int <= 42 - popcnt(start.occupied),
            popcnt(start.forced_spec()) == 0,
            i32::MIN + 2 <= alpha,
            alpha < beta,
            beta <= i32::MAX - 1,
            possible_moves == start.legal_spec(),
            k <= 7,
            d == depth as int,
            v == strong_value(start, d),
            v == max_i(true_max, strong_best(start, d, k as int)),
            cur_alpha as int == max_i(alpha as int, max_score as int),
            max_score == i32::MIN || -99 - d <= max_score as int <= 99 + d,
            true_max == i32::MIN as int || -99 - d <= true_max <= 99 + d,
            max_score as int <= max_i(alpha as int, true_max),
            (max_score as int) < beta as int ==> true_max <= max_score as int,
            (max_score == i32::MIN) == (true_max == i32::MIN as int),
            (best_move == 0) == (max_score == i32::MIN),
            best_move != 0 ==> popcnt(best_move) == 1 && best_move & start.legal_spec()
                == best_move,
            alpha < max_score && (max_score as int) < beta as int ==> max_score as int
                == -strong_value(start.play_spec(best_move), d - 1),
            forall|kk: int|
                0 <= kk < k ==> start.col_move_spec(search_order(kk) as int) == 0 || -strong_value(
                    start.play_spec(start.col_move_spec(search_order(kk) as int)),
                    d - 1,
                ) <= true_max,
            alpha < max_score && (max_score as int) < beta as int ==> 0 <= pv_idx < k && best_move
                == start.col_move_spec(search_order(pv_idx) as int) && (forall|j: int|
                0 <= j < pv_idx ==> start.col_move_spec(search_order(j) as int) == 0
                    || -strong_value(
                    start.play_spec(start.col_move_spec(search_order(j) as int)),
                    d - 1,
                ) < max_score as int),
            *num_nodes >= n1,
        ensures
            k == 7 || (max_score as int >= beta as int && true_max >= max_score as int
                && max_score != i32::MIN),
        decreases 7 - k,
    {
        let col = order_col(k);
        let to_play = BitBoard::move_in_row(possible_moves, col);
        proof {
            start.lemma_col_move(col as int);
            assert(to_play == start.col_move_spec(search_order(k as int) as int));
        }

        // No valid move in this column
        if to_play == 0 {
            proof {
                assert(strong_best(start, d, k as int) == strong_best(start, d, k as int + 1));
            }
            k = k + 1;
            continue ;
        }
        proof {
            start.lemma_play_wf(to_play);
            lemma_strong_value_range(start.play_spec(to_play), d - 1);
        }

        let new_board = start.play_field(to_play);
        let (score0, _) = solve_strong(new_board, depth - 1, -beta, -cur_alpha, num_nodes);
        let score = -score0;
        let ghost vc = strong_value(start.play_spec(to_play), d - 1);
        proof {
            assert(score as int >= beta as int ==> -vc >= score as int);
            assert(score <= cur_alpha ==> -vc <= score as int);
            assert(cur_alpha < score && (score as int) < beta as int ==> score as int == -vc);
            assert(strong_best(start, d, k as int) == max_i(
                -vc,
                strong_best(start, d, k as int + 1),
            ));
        }
        let ghost old_max_score = max_score;
        proof {
            if score > max_score && alpha < score && (score as int) < beta as int {
                // Every earlier child scores strictly below this one, so the
                // updated move is still the earliest maximum.
                assert forall|j: int| 0 <= j < k implies start.col_move_spec(
                    search_order(j) as int,
                ) == 0 || -strong_value(
                    start.play_spec(start.col_move_spec(search_order(j) as int)),
                    d - 1,
                ) < score as int by {}
            }
            true_max = max_i(true_max, -vc);
            if score > max_score {
                pv_idx = k as int;
            }
        }

        if score > max_score {
            max_score = score;
            best_move = to_play;
        }
        if cur_alpha < score {
            cur_alpha = score;
        }

        if cur_alpha >= beta {
            proof {
                assert(score > old_max_score);
                assert(max_score == score);
                assert(-vc >= score as int);
                assert(true_max >= max_score as int);
            }
            break ;
        }
        k = k + 1;
    }
    proof {
        if k == 7 && (max_score as int) < beta as int {
            assert(strong_best(start, d, 7) == i32::MIN as int);
            if true_max == i32::MIN as int {
                start.lemma_stone_counts();
                start.lemma_board_not_full();
                let c = choose|c: int| 0 <= c < 7 && start.col_move_spec(c) != 0;
                assert(search_order(order_index(c)) == c);
                assert(start.col_move_spec(search_order(order_index(c)) as int) != 0);
                start.lemma_col_move(c);
                start.lemma_play_wf(start.col_move_spec(c));
                lemma_strong_value_range(start.play_spec(start.col_move_spec(c)), d - 1);
                assert(false);
            }
            assert(v == true_max);
            lemma_strong_value_range(start, d);
            if alpha < max_score {
                // Exact window: the recorded move is the principal variation.
                assert(max_score as int == true_max);
                lemma_strong_best_bounded(start, d, pv_idx + 1, true_max);
                lemma_strong_pv_from(start, d, 0, pv_idx);
            }
        }
    }
    (max_score, best_move)
}

/// Which solver strength to use.
#[derive(Eq, PartialEq, Debug)]
pub enum SolverType {
    Strong,
    Weak,
}

/// The outcome of a search: score and chosen move, with the number of nodes
/// searched and, for the weak solver, in how many plies the game ends.
#[derive(Default, Eq, PartialEq, Debug)]
pub struct SolveResult {
    pub score: i32,
    pub mov: u64,
    pub nodes_searched: u64,
    // Win was found in x rounds
    pub end_in: i32,
}

/// A score paired with the column it came from.
#[derive(Copy, Clone, Eq, PartialEq, Debug)]
pub struct BestMove {
    pub score: i32,
    pub move_row: usize,
}

impl BestMove {
    /// Pairs a score with its column.
    pub fn new(score: i32, move_row: usize) -> (r: BestMove)
        ensures
            r.score == score,
            r.move_row == move_row,
    {
        BestMove { score, move_row }
    }
}

impl SolveResult {
    /// A result with the given score and move and empty counters.
    pub fn new(score: i32, mov: u64) -> (r: SolveResult)
        ensures
            r.score == score,
            r.mov == mov,
            r.nodes_searched == 0,
            r.end_in == 0,
    {
        SolveResult { score, mov, nodes_searched: 0, end_in: 0 }
    }
}

/// The depth a search really runs at: the requested depth, clamped to the
/// number of empty squares.
pub open spec fn clamped_depth(b: BitBoard, depth: u8) -> int {
    if depth as int <= 42 - popcnt(b.occupied) {
        depth as int
    } else {
        42 - popcnt(b.occupied)
    }
}

/// Solves a position: the score and principal move at the given depth, the
/// weak score's distance-to-end, and the node count.
///
/// The score is exactly [`weak_value`] (resp. [`strong_value`]) of the
/// position at the clamped depth, and on a live position the chosen move is
/// a legal move whose value the score negates.
pub fn solve(start: &BitBoard, depth: u8, solver: SolverType) -> (r: SolveResult)
    requires
        start.bits_ok(),
        start.gravity_ok(),
        solver == SolverType::Strong ==> start.balanced(),
    ensures
        solver == SolverType::Weak ==> {
            &&& r.score == weak_value(*start, clamped_depth(*start, depth))
            &&& r.end_in == (if r.score == 0 {
                0int
            } else {
                clamped_depth(*start, depth) - (if r.score < 0 {
                    -(r.score as int)
                } else {
                    r.score as int
                }) + 1
            })
        },
        solver == SolverType::Strong ==> {
            &&& r.score == strong_value(*start, clamped_depth(*start, depth))
            &&& r.end_in == 0
        },
        !wins(start.opp_spec()) && clamped_depth(*start, depth) > 0 ==> r.mov != 0 && popcnt(r.mov)
            == 1 && r.mov & start.legal_spec() == r.mov,
        wins(start.opp_spec()) || clamped_depth(*start, depth) == 0 ==> r.mov == 0,
        !wins(start.opp_spec()) && clamped_depth(*start, depth) > 0 && popcnt(start.forced_spec())
            >= 2 ==> r.mov == 1u64 << (vstd::std_specs::bits::u64_trailing_zeros(
            start.forced_spec(),
        ) as u64),
        !wins(start.opp_spec()) && clamped_depth(*start, depth) > 0 && popcnt(start.forced_spec())
            == 1 ==> r.mov == start.forced_spec(),
        solver == SolverType::Weak && !wins(start.opp_spec()) && clamped_depth(*start, depth) > 0
            && popcnt(start.forced_spec()) == 0 ==> r.mov == weak_pv(
            *start,
            clamped_depth(*start, depth),
            0,
        ),
        solver == SolverType::Strong && !wins(start.opp_spec()) && clamped_depth(*start, depth) > 0
            && popcnt(start.forced_spec()) == 0 ==> r.mov == strong_pv(
            *start,
            clamped_depth(*start, depth),
            0,
        ),
        wins(start.opp_spec()) ==> r.nodes_searched == 0,
        !wins(start.opp_spec()) ==> r.nodes_searched >= 1,
        !wins(start.opp_spec()) && (clamped_depth(*start, depth) == 0 || popcnt(
            start.forced_spec(),
        ) >= 2) ==> r.nodes_searched == 1,
        solver == SolverType::Weak && !wins(start.opp_spec()) && clamped_depth(*start, depth) > 0
            && popcnt(start.forced_spec()) <= 1 ==> r.score == -weak_value(
            start.play_spec(r.mov),
            clamped_depth(*start, depth) - 1,
        ),
        solver == SolverType::Strong && !wins(start.opp_spec()) && clamped_depth(*start, depth) > 0
            && popcnt(start.forced_spec()) <= 1 ==> r.score == -strong_value(
            start.play_spec(r.mov),
            clamped_depth(*start, depth) - 1,
        ),
{
    let start = *start;
    proof {
        start.lemma_stone_counts();
    }
    let stones = start.number_of_stones() as u8;
    let remaining = 42 - stones;
    let depth = if depth < remaining {
        depth
    } else {
        remaining
    };
    let mut nodes_searched: u64 = 0;

    proof {
        lemma_weak_value_range(start, depth as int);
        if solver == SolverType::Strong {
            lemma_strong_value_range(start, depth as int);
        }
    }
    let (score, mov) = match solver {
        SolverType::Strong => {
            solve_strong(start, depth, i32::MIN + 2, i32::MAX - 2, &mut nodes_searched)
        },
        SolverType::Weak => {
            solve_weak(start, depth, i32::MIN + 2, i32::MAX - 2, &mut nodes_searched)
        },
    };

    let end_in = match solver {
        SolverType::Strong => { 0 },
        SolverType::Weak => {
            if score == 0 {
                0
            } else {
                let magnitude = if score < 0 {
                    -score
                } else {
                    score
                };
                depth as i32 - magnitude + 1
            }
        },
    };
    SolveResult { score, mov, nodes_searched, end_in }
}

/// The strong and the weak value of a position agree on the outcome: where
/// the weak solver proves a win or a loss, the strong score is the weak one
/// moved 99 further out, and where the weak solver sees a draw, the strong
/// score stays within the heuristic band [-99, 99].  A strong score outside
/// that band therefore encodes a proven mate, nearer mates lying further
/// out.
pub proof fn lemma_strong_weak_agree(b: BitBoard, depth: int)
    requires
        b.wf(),
        0 <= depth,
        depth <= 42 - popcnt(b.occupied),
    ensures
        weak_value(b, depth) > 0 ==> strong_value(b, depth) == weak_value(b, depth) + 99,
        weak_value(b, depth) < 0 ==> strong_value(b, depth) == weak_value(b, depth) - 99,
        weak_value(b, depth) == 0 ==> -99 <= strong_value(b, depth) <= 99,
        strong_value(b, depth) > 99 <==> weak_value(b, depth) > 0,
        strong_value(b, depth) < -99 <==> weak_value(b, depth) < 0,
    decreases depth, 1int, 0int,
{
    if wins(b.opp_spec()) {
    } else if depth <= 0 {
        b.lemma_heuristic2_range();
    } else if popcnt(b.forced_spec()) >= 2 {
    } else if popcnt(b.forced_spec()) == 1 {
        lemma_forced_one(b);
        b.lemma_play_wf(b.forced_spec());
        lemma_strong_weak_agree(b.play_spec(b.forced_spec()), depth - 1);
        lemma_weak_value_range(b.play_spec(b.forced_spec()), depth - 1);
        lemma_strong_value_range(b.play_spec(b.forced_spec()), depth - 1);
    } else {
        lemma_strong_weak_best(b, depth, 0);
        lemma_weak_best_found(b, depth);
        lemma_weak_best_range(b, depth, 0);
        lemma_strong_best_range(b, depth, 0);
    }
}

proof fn lemma_strong_weak_best(b: BitBoard, depth: int, k: int)
    requires
        b.wf(),
        1 <= depth,
        depth <= 42 - popcnt(b.occupied),
        0 <= k <= 7,
    ensures
        (weak_best(b, depth, k) == i32::MIN as int) == (strong_best(b, depth, k) == i32::MIN as int),
        weak_best(b, depth, k) > 0 ==> strong_best(b, depth, k) == weak_best(b, depth, k) + 99,
        weak_best(b, depth, k) < 0 && weak_best(b, depth, k) != i32::MIN as int ==> strong_best(
            b,
            depth,
            k,
        ) == weak_best(b, depth, k) - 99,
        weak_best(b, depth, k) == 0 ==> -99 <= strong_best(b, depth, k) <= 99,
    decreases depth, 0int, 7 - k,
{
    if k < 7 {
        lemma_strong_weak_best(b, depth, k + 1);
        lemma_weak_best_range(b, depth, k + 1);
        lemma_strong_best_range(b, depth, k + 1);
        let c = search_order(k) as int;
        b.lemma_col_move(c);
        let m = b.col_move_spec(c);
        if m != 0 {
            b.lemma_play_wf(m);
            lemma_strong_weak_agree(b.play_spec(m), depth - 1);
            lemma_weak_value_range(b.play_spec(m), depth - 1);
            lemma_strong_value_range(b.play_spec(m), depth - 1);
        }
    }
}

/// At depth zero a non-terminal position scores a draw for the weak solver
/// and its material heuristic for the strong one.
pub proof fn lemma_depth_zero(b: BitBoard)
    requires
        !wins(b.opp_spec()),
    ensures
        weak_value(b, 0) == 0,
        strong_value(b, 0) == b.heuristic2_spec(),
{
}

/// A depth beyond the remaining stones is silently clamped: the search runs
/// at the number of empty squares.
pub proof fn lemma_depth_clamped(b: BitBoard, depth: u8)
    requires
        42 - popcnt(b.occupied) <= depth as int,
    ensures
        clamped_depth(b, depth) == 42 - popcnt(b.occupied),
{
}

/// The maximum over the remaining children is attained by the move of some
/// column.
proof fn lemma_weak_best_attained(b: BitBoard, depth: int, k: int)
    requires
        0 <= k <= 7,
        1 <= depth,
        weak_best(b, depth, k) > i32::MIN as int,
    ensures
        exists|m: u64|
            m != 0 && (exists|c: int|
                0 <= c < 7 && m == b.col_move_spec(c)) && weak_best(b, depth, k) == -weak_value(
                b.play_spec(m),
                depth - 1,
            ),
    decreases 7 - k,
{
    let m = b.col_move_spec(search_order(k) as int);
    let rest = weak_best(b, depth, k + 1);
    if k < 7 && m != 0 && -weak_value(b.play_spec(m), depth - 1) >= rest {
        assert(0 <= search_order(k) < 7 && m == b.col_move_spec(search_order(k) as int));
    } else {
        lemma_weak_best_attained(b, depth, k + 1);
    }
}

/// The negamax sign law: on a live position searched to a positive depth
/// with at most one forced reply, some legal move's value at one ply less,
/// negated, is the position's weak value.  The solver's chosen move is such
/// a move.
pub proof fn lemma_negamax_sign(b: BitBoard, depth: int)
    requires
        b.bits_ok(),
        b.gravity_ok(),
        !wins(b.opp_spec()),
        1 <= depth,
        depth <= 42 - popcnt(b.occupied),
        popcnt(b.forced_spec()) <= 1,
    ensures
        exists|m: u64|
            m != 0 && popcnt(m) == 1 && m & b.legal_spec() == m && weak_value(b, depth)
                == -weak_value(b.play_spec(m), depth - 1),
{
    if popcnt(b.forced_spec()) == 1 {
        lemma_forced_one(b);
        let m = b.forced_spec();
        assert(m != 0 && popcnt(m) == 1 && m & b.legal_spec() == m && weak_value(b, depth)
            == -weak_value(b.play_spec(m), depth - 1));
    } else {
        lemma_weak_best_found(b, depth);
        lemma_weak_best_attained(b, depth, 0);
        let m = choose|m: u64|
            m != 0 && (exists|c: int|
                0 <= c < 7 && m == b.col_move_spec(c)) && weak_best(b, depth, 0) == -weak_value(
                b.play_spec(m),
                depth - 1,
            );
        let c = choose|c: int| 0 <= c < 7 && m == b.col_move_spec(c);
        b.lemma_col_move(c);
        assert(m != 0 && popcnt(m) == 1 && m & b.legal_spec() == m && weak_value(b, depth)
            == -weak_value(b.play_spec(m), depth - 1));
    }
}

} // verus!
