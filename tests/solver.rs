use flow_four::board::{Board, Cell};
use flow_four::solver::Solver;
use flow_four::solver_stack::SolverStack;

fn load(text: &str, rows: usize, cols: usize) -> Board {
    Board::load_board(text, rows, cols).unwrap()
}

/// Steps until the search is done or has failed; returns the number of steps.
fn run(stack: &mut SolverStack, limit: usize) -> usize {
    let mut n = 0;
    while !stack.done() && !stack.failed() && n < limit {
        stack.step();
        n += 1;
    }
    n
}

#[test]
fn moves_from_lists_empty_neighbours() {
    let b = load("A..\n.B.\n...", 3, 3);
    assert_eq!(Solver::moves_from(&b, (1, 1)), vec![(0, 1), (1, 0), (2, 1), (1, 2)]);
    assert_eq!(Solver::moves_from(&b, (0, 0)), vec![(1, 0), (0, 1)]);
}

#[test]
fn new_solver_keeps_board() {
    let b = load("A.A\nB.B", 2, 3);
    let s = Solver::new(&b);
    assert_eq!(s.get_board(), b);
    assert!(!s.done());
    assert!(!s.failed());
}

#[test]
fn timid_step_makes_first_forced_move() {
    let b = load("A.A\nB.B", 2, 3);
    let mut s = Solver::new(&b);
    assert!(s.timid_step());
    assert_eq!(s.get_board(), load("AaA\nB.B", 2, 3));
    assert!(!s.done());
    assert!(s.timid_step());
    assert_eq!(s.get_board(), load("AaA\nBbB", 2, 3));
    assert!(s.done());
    assert!(!s.timid_step());
    assert_eq!(s.get_board(), load("AaA\nBbB", 2, 3));
}

#[test]
fn timid_step_without_forced_move_changes_nothing() {
    let b = load("A..\n...\n..A", 3, 3);
    let mut s = Solver::new(&b);
    assert!(!s.timid_step());
    assert_eq!(s.get_board(), b);
}

#[test]
fn binary_step_splits_on_two_options() {
    let b = load("A..\n...\n..A", 3, 3);
    let mut s = Solver::new(&b);
    let (first, second) = s.binary_step().unwrap();
    assert_eq!(first.get_board(), load("A..\na..\n..A", 3, 3));
    assert_eq!(second.get_board(), load("Aa.\n...\n..A", 3, 3));
    assert_eq!(s.get_board(), first.get_board());
}

#[test]
fn binary_step_without_branch_returns_none() {
    let b = load("A.A\nB.B", 2, 3);
    let mut s = Solver::new(&b);
    assert!(s.binary_step().is_none());
    assert_eq!(s.get_board(), b);
}

#[test]
fn pocket_makes_solver_fail_on_legal_board() {
    let b = load("AaaA\nb.cC\nbccD\nBDdd", 4, 4);
    assert!(b.is_legal());
    assert!(!b.is_solved());
    let s = Solver::new(&b);
    assert!(s.failed());
}

#[test]
fn illegal_board_fails() {
    let s = Solver::new(&load("aaa\n.a.\nA.A", 3, 3));
    assert!(s.failed());
}

#[test]
fn full_unsolved_board_fails() {
    let s = Solver::new(&load("AB\nBA", 2, 2));
    assert!(s.failed());
}

#[test]
fn blocked_tip_fails() {
    let s = Solver::new(&load("AB.\nB..\n..A", 3, 3));
    assert!(s.failed());
}

#[test]
fn solved_board_never_fails() {
    let s = Solver::new(&load("AaA\nBbB", 2, 3));
    assert!(!s.failed());
}

#[test]
fn forced_puzzle_done_agrees_with_solved() {
    let mut stack = SolverStack::new(Solver::new(&load("A.A\nB.B", 2, 3)));
    let n = run(&mut stack, 100);
    assert_eq!(n, 2);
    assert!(stack.done());
    assert!(stack.get_board().is_solved());
    assert!(!stack.failed());
}

#[test]
fn forced_corridor_is_solved() {
    let mut stack = SolverStack::new(Solver::new(&load("A..A", 1, 4)));
    assert_eq!(run(&mut stack, 100), 2);
    assert!(stack.done());
    assert_eq!(stack.get_board(), load("AaaA", 1, 4));
}

#[test]
fn one_branch_puzzle_solves_in_forced_moves_plus_one() {
    let board = load("A...\n.BA.\n...B", 3, 4);
    let mut stack = SolverStack::new(Solver::new(&board));
    let n = run(&mut stack, 1000);
    // seven forced moves and the one split
    assert_eq!(n, 8);
    assert!(stack.done());
    assert!(!stack.failed());
    assert_eq!(stack.get_board(), load("Abbb\naBAb\naaaB", 3, 4));
    assert!(stack.get_board().is_solved());
}

#[test]
fn second_option_dead_end_is_never_needed() {
    let board = load("AB..\n..C.\n.CB.\n...A", 4, 4);
    // the second option of the only split fails at once
    let mut s = Solver::new(&board);
    while s.timid_step() {}
    let (_, second) = s.binary_step().unwrap();
    assert!(second.failed());
    // the search follows the first option to the solution: nine forced
    // moves and the one split
    let mut stack = SolverStack::new(Solver::new(&board));
    let n = run(&mut stack, 1000);
    assert_eq!(n, 10);
    assert!(stack.done());
    assert!(!stack.failed());
    assert_eq!(stack.get_board(), load("ABbb\nacCb\naCBb\naaaA", 4, 4));
    assert!(stack.get_board().is_solved());
}

#[test]
fn backtracks_to_suspended_state() {
    // both options of the first split fail, so the search backtracks once
    // and then has nothing left to try
    let board = load("A.B\n...\nB.A", 3, 3);
    let mut stack = SolverStack::new(Solver::new(&board));
    run(&mut stack, 1000);
    assert!(stack.failed());
    assert!(!stack.get_board().is_solved());
}

#[test]
fn crossing_corner_pairs_cannot_be_solved() {
    let board = load("A...B\n.....\n.....\n.....\nB...A", 5, 5);
    let mut stack = SolverStack::new(Solver::new(&board));
    let n = run(&mut stack, 100_000);
    assert!(n < 100_000);
    assert!(stack.failed());
    assert!(!stack.get_board().is_solved());
}

#[test]
fn failed_stack_without_backlog_stays_put() {
    let board = load("AB\nBA", 2, 2);
    let mut stack = SolverStack::new(Solver::new(&board));
    assert!(stack.failed());
    stack.step();
    assert!(stack.failed());
    assert_eq!(stack.get_board(), board);
}

#[test]
fn flows_follow_color_order() {
    // color 0 (A) stands below color 1 (B): its flow is scanned first
    let mut s = Solver::new(&load("B.B\nA.A", 2, 3));
    assert!(s.timid_step());
    assert_eq!(s.get_board(), load("B.B\nAaA", 2, 3));
    assert!(s.timid_step());
    assert_eq!(s.get_board(), load("BbB\nAaA", 2, 3));
}

#[test]
fn touching_heads_start_complete() {
    let s = Solver::new(&load("BBAA", 1, 4));
    assert!(s.done());
    assert!(!s.failed());
    let mut stack = SolverStack::new(Solver::new(&load("AA", 1, 2)));
    assert!(stack.done());
    assert!(!stack.failed());
    assert!(stack.get_board().is_solved());
    assert_eq!(run(&mut stack, 10), 0);
}
