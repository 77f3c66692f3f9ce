use c4solver::board::BitBoard;
use c4solver::engine::solve;
use c4solver::engine::SolverType::Strong;
use c4solver::engine::SolverType::Weak;

const EMPTY: &str = "nnnnnnn
            nnnnnnn
            nnnnnnn
            nnnnnnn
            nnnnnnn
            nnnnnnn";

/// The densely filled board of the solver benchmarks.
const ENDGAME01: &str = "nnnnnnn
            nnnnnnp
            cppnnnc
            ppcpccp
            ppccppc
            ccppccp";

#[test]
fn test_solve_easy() {
    let board_easy = "nnnnnnn
            nnnnnnn
            nnnnnnn
            nnnnnnn
            nnnnnnn
            nnncnnn";
    let bits = BitBoard::from_string(board_easy).unwrap();

    let result = solve(&bits, 3, Weak);

    let best_move_easy = "nnnnnnn
            nnnnnnn
            nnnnnnn
            nnnnnnn
            nnnpnnn
            nnnnnnn";
    let best_move_easy = BitBoard::from_string(best_move_easy).unwrap().player;

    println!("{}", result.score);
    assert_eq!(best_move_easy, result.mov)
}

#[test]
fn weak_solver_empty_board_depth_seven() {
    // An inconclusive weak search scores a draw and picks the centre column
    // by the search-order tie-break.
    let bits = BitBoard::from_string(EMPTY).unwrap();
    let result = solve(&bits, 7, Weak);
    assert_eq!(result.score, 0);
    assert_eq!(result.end_in, 0);
    assert_eq!(result.mov, 1u64 << 24);
}

#[test]
fn weak_solver_empty_board_never_loses() {
    // Connect Four is a first-player win or draw, so the weak score of the
    // empty board is never negative, whatever the horizon.
    let bits = BitBoard::from_string(EMPTY).unwrap();
    for depth in 0..=11u8 {
        let result = solve(&bits, depth, Weak);
        assert!(result.score >= 0);
    }
}

#[test]
fn weak_scores_stay_within_depth_bounds() {
    let fixtures = [
        EMPTY,
        ENDGAME01,
        "nnnnnnn
            nnnnnnn
            nnnnnnn
            nnnnnnn
            cccnnnn
            pppnnnn",
    ];
    for text in fixtures {
        let bits = BitBoard::from_string(text).unwrap();
        for depth in 0..=5i32 {
            let result = solve(&bits, depth as u8, Weak);
            assert!(-(depth + 1) <= result.score && result.score <= depth + 1);
        }
    }
}

#[test]
fn endgame_fixture_depth_seven() {
    // The side to move mates at once on top of its three stones in column 1.
    let bits = BitBoard::from_string(ENDGAME01).unwrap();
    let result = solve(&bits, 7, Weak);
    assert_eq!(result.score, 7);
    assert_eq!(result.end_in, 1);
    assert_eq!(result.mov, 1u64 << 12);
}

#[test]
fn negamax_sign_on_chosen_move() {
    // The weak value of the position after the chosen move, searched one
    // ply shallower, negates the root score.
    for (text, depth) in [(EMPTY, 5u8), (ENDGAME01, 7u8)] {
        let bits = BitBoard::from_string(text).unwrap();
        let result = solve(&bits, depth, Weak);
        let child = bits.play_field(result.mov);
        let reply = solve(&child, depth - 1, Weak);
        assert_eq!(reply.score, -result.score);
    }
}

#[test]
fn depth_zero_weak_draw_strong_heuristic() {
    let board = "nnnnnnn
            nnnnnnn
            nnnnnnn
            nnnnnnn
            nnnnnnn
            nnncnnn";
    let bits = BitBoard::from_string(board).unwrap();
    let weak = solve(&bits, 0, Weak);
    assert_eq!(weak.score, 0);
    assert_eq!(weak.mov, 0);
    let strong = solve(&bits, 0, Strong);
    assert_eq!(strong.score, bits.heuristic_2());
    assert_eq!(strong.score, -3);
    assert_eq!(strong.mov, 0);
}

#[test]
fn depth_clamped_to_remaining_stones() {
    // Only sixteen squares are empty, so any larger depth searches alike.
    let bits = BitBoard::from_string(ENDGAME01).unwrap();
    let clamped = solve(&bits, 200, Weak);
    let exact = solve(&bits, 16, Weak);
    assert_eq!(clamped.score, exact.score);
    assert_eq!(clamped.mov, exact.mov);
}

#[test]
fn forced_block_double_threat() {
    // The opponent threatens both ends of its row of three: the position is
    // lost this turn, and the solver blocks one of the two squares.
    let board = "nnnnnnn
            nnnnnnn
            nnnnnnn
            nnnnnnn
            nnnnnpn
            ncccnpn";
    let bits = BitBoard::from_string(board).unwrap();
    assert_eq!(bits.forced_moves().count_ones(), 2);
    let result = solve(&bits, 3, Weak);
    assert!(result.score <= -3);
    assert_eq!(result.mov, 1u64 << 0);
    // The double threat is recognised at entry: a single node is searched.
    assert_eq!(result.nodes_searched, 1);
}

#[test]
fn strong_agrees_with_weak_at_mate() {
    // Where the weak solver proves a win within the budget, the strong
    // solver scores it beyond 99 and picks the same move.
    let board = "nnnnnnn
            nnnnnnn
            nnnnnnn
            nnnnnnn
            cccnnnn
            pppnnnn";
    let bits = BitBoard::from_string(board).unwrap();
    let weak = solve(&bits, 3, Weak);
    assert_eq!(weak.score, 3);
    let strong = solve(&bits, 3, Strong);
    assert_eq!(strong.score, 102);
    assert_eq!(strong.score, weak.score + 99);
    assert!(strong.score > 99 && strong.score <= 99 + 3);
    assert_eq!(strong.mov, weak.mov);
    assert_eq!(strong.mov, 1u64 << 24);
}

#[test]
fn solve_result_and_best_move_constructors() {
    let r = c4solver::engine::SolveResult::new(5, 1u64 << 24);
    assert_eq!(r.score, 5);
    assert_eq!(r.mov, 1u64 << 24);
    assert_eq!(r.nodes_searched, 0);
    assert_eq!(r.end_in, 0);
    let b = c4solver::engine::BestMove::new(-2, 3);
    assert_eq!(b.score, -2);
    assert_eq!(b.move_row, 3);
}

#[test]
fn node_counter_grows_with_depth() {
    let bits = BitBoard::from_string(EMPTY).unwrap();
    let shallow = solve(&bits, 2, Weak);
    let deep = solve(&bits, 6, Weak);
    assert!(shallow.nodes_searched > 0);
    assert!(deep.nodes_searched > shallow.nodes_searched);
}
