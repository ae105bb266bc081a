use solitaire_solver::calc_first::{dedup_pairs, ordered_moves, sort_descending};
use solitaire_solver::calc_naive::solvable_boards;
use solitaire_solver::{
    boards_with_pegs, calculate_first_solution, feasible_set, hints, random_move_outcomes, Board,
    Move, Solution,
};

#[test]
fn first_solution_solves_the_game() {
    let solution = calculate_first_solution();
    assert_eq!(solution.len(), 31);
    assert_eq!(solution.total(), 31);
    assert!(!solution.is_empty());
    assert!(solution.is_complete());
    let mut board = Board::default();
    for m in solution.moves() {
        assert!(board.can_play(m));
        board = board.mov(m);
    }
    assert_eq!(board, Board::solved());
    let boards = solution.trace(Board::default()).unwrap();
    assert_eq!(boards.len(), 32);
    assert_eq!(boards[0], Board::default());
    assert_eq!(boards[31], Board::solved());
    for (i, b) in boards.iter().enumerate() {
        assert_eq!(b.count_balls(), 32 - i as u64);
    }
}

#[test]
fn solution_is_a_stack_of_moves() {
    let mut s = Solution::default();
    assert!(s.is_empty());
    assert_eq!(s.len(), 0);
    assert_eq!(s.total(), 31);
    assert!(!s.is_complete());
    let a = Move { pos: (1, 3), skip: (2, 3), target: (3, 3) };
    let b = Move { pos: (2, 1), skip: (2, 2), target: (2, 3) };
    s.push(a);
    s.push(b);
    assert_eq!(s.len(), 2);
    assert_eq!(s.moves(), vec![a, b]);
    assert_eq!(s.clone().moves(), vec![a, b]);
    let boards = s.trace(Board::default()).unwrap();
    assert_eq!(boards, vec![Board::default(), Board::default().mov(a), Board::default().mov(a).mov(b)]);
    assert_eq!(s.pop(), b);
    assert_eq!(s.pop(), a);
    assert!(s.is_empty());
    // a move that cannot be played
    s.push(b);
    assert_eq!(s.trace(Board::default()), None);
    // a jump that is not straight
    let mut crooked = Solution::new();
    crooked.push(Move { pos: (1, 3), skip: (2, 4), target: (3, 3) });
    assert_eq!(crooked.trace(Board::default()), None);
    let mut full = Solution::new();
    for _ in 0..31 {
        full.push(a);
    }
    assert_eq!(full.len(), 31);
}

#[test]
fn moves_ordered_by_the_board_they_give() {
    let start = Board::default();
    let pairs = ordered_moves(&start);
    assert_eq!(pairs.len(), 4);
    for (b, m) in &pairs {
        assert_eq!(*b, start.mov(*m));
    }
    assert!(pairs.windows(2).all(|w| w[0].0 .0 > w[1].0 .0));
    // each legal move is listed once
    let legal = start.get_legal_moves();
    assert_eq!(pairs.len(), legal.len());
    for m in &legal {
        assert_eq!(pairs.iter().filter(|p| p.1 == *m).count(), 1);
    }
    let m = Move::default();
    let b = |k: u64| Board::from_compressed_repr(k);
    let v = vec![(b(3), m), (b(9), m), (b(1), m), (b(9), m), (b(4), m)];
    let sorted = sort_descending(&v);
    assert_eq!(sorted, vec![(b(9), m), (b(9), m), (b(4), m), (b(3), m), (b(1), m)]);
    assert_eq!(dedup_pairs(&sorted), vec![(b(9), m), (b(4), m), (b(3), m), (b(1), m)]);
}

fn small_start() -> Board {
    // the goal with three moves taken back
    let mut board = Board::solved();
    for _ in 0..5 {
        let back = board.get_legal_inverse_moves();
        board = board.reverse_mov(back[back.len() - 1]);
    }
    board
}

fn brute_force(start: Board) -> Vec<Board> {
    fn wins(b: Board) -> bool {
        b.is_solved() || b.get_legal_moves().into_iter().any(|m| wins(b.mov(m).normalize()))
    }
    fn visit(b: Board, seen: &mut Vec<Board>) {
        if seen.contains(&b) {
            return;
        }
        seen.push(b);
        for m in b.get_legal_moves() {
            visit(b.mov(m).normalize(), seen);
        }
    }
    let mut seen = vec![];
    visit(start, &mut seen);
    let mut out: Vec<Board> = seen.into_iter().filter(|b| wins(*b)).collect();
    out.sort();
    out
}

#[test]
fn naive_search_from_a_small_board() {
    let start = small_start();
    assert_eq!(start.count_balls(), 6);
    let mut found = solvable_boards(start);
    found.sort();
    assert!(found.windows(2).all(|w| w[0] != w[1]));
    assert_eq!(found, brute_force(start));
    assert!(found.contains(&Board::solved()));
    assert!(found.contains(&start));
    // a board that cannot be solved leads nowhere
    let dead = Board::empty().set((0, 2)).set((6, 4));
    assert_eq!(solvable_boards(dead), vec![]);
    assert_eq!(solvable_boards(Board::solved()), vec![Board::solved()]);
}

#[test]
fn outcomes_of_a_random_move() {
    let start = small_start();
    let feasible = solvable_boards(start);
    let set = feasible_set(&feasible);
    assert_eq!(set.len(), feasible.len());
    for b in &feasible {
        assert!(set.contains(b));
        let out = random_move_outcomes(b, &set);
        let moves = b.get_legal_moves();
        assert_eq!(out.moves, moves.len());
        let expected: Vec<Board> = moves
            .iter()
            .map(|m| b.mov(*m).normalize())
            .filter(|c| feasible.contains(c))
            .collect();
        assert_eq!(out.feasible, expected);
    }
    let goal = random_move_outcomes(&Board::solved(), &set);
    assert_eq!(goal.moves, 0);
    assert!(goal.feasible.is_empty());
    for pegs in 0..8 {
        let layer = boards_with_pegs(&feasible, pegs);
        let expected: Vec<Board> =
            feasible.iter().copied().filter(|b| b.count_balls() == pegs).collect();
        assert_eq!(layer, expected);
    }
    assert_eq!(boards_with_pegs(&feasible, 1), vec![Board::solved()]);
}

#[test]
fn chance_of_winning_from_a_small_board() {
    let start = small_start();
    let feasible = solvable_boards(start);
    let set = feasible_set(&feasible);
    let mut chances: std::collections::HashMap<Board, f64> = std::collections::HashMap::new();
    chances.insert(Board::solved(), 1.0);
    for pegs in 2..=6 {
        for b in boards_with_pegs(&feasible, pegs) {
            let out = random_move_outcomes(&b, &set);
            let p: f64 = out.feasible.iter().map(|c| chances[c] / out.moves as f64).sum();
            chances.insert(b, p);
        }
    }
    assert_eq!(chances[&Board::solved()], 1.0);
    // of the two moves of this board one leads to the goal
    let two = Board::empty().set((1, 3)).set((2, 3)).normalize();
    assert_eq!(chances[&two], 0.5);
    let p = chances[&start];
    assert!(p > 0.0 && p <= 1.0);
    for b in &feasible {
        assert!(chances[b] > 0.0);
    }
}

#[test]
fn hints_are_the_moves_that_keep_the_game_solvable() {
    let start = small_start();
    let feasible = solvable_boards(start);
    let set = feasible_set(&feasible);
    let mut with_dead_ends = 0;
    for b in &feasible {
        let good = hints(b, &set);
        let expected: Vec<Move> = b
            .get_legal_moves()
            .into_iter()
            .filter(|m| feasible.contains(&b.mov(*m).normalize()))
            .collect();
        assert_eq!(good, expected);
        assert_eq!(good.is_empty(), b.is_solved());
        if good.len() < b.get_legal_moves().len() {
            with_dead_ends += 1;
        }
    }
    assert!(with_dead_ends > 0);
    // of the two moves of this board one leads to the goal
    let two = Board::empty().set((1, 3)).set((2, 3));
    assert_eq!(hints(&two, &set), vec![Move { pos: (1, 3), skip: (2, 3), target: (3, 3) }]);
    assert_eq!(hints(&Board::default(), &set), vec![]);
}
