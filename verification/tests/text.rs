use solitaire_solver::pagoda::{pagoda, pagoda_weight, prune_pagoda_inverse};
use solitaire_solver::text::push_decimal;
use solitaire_solver::{Board, Move, Solution};

#[test]
fn picture_of_the_start() {
    let expected = "       o  o  o       \n       o  o  o       \n o  o  o  o  o  o  o \n o  o  o  .  o  o  o \n o  o  o  o  o  o  o \n       o  o  o       \n       o  o  o       \n";
    assert_eq!(Board::default().render(), expected);
    let goal = Board::solved().render();
    assert_eq!(goal.len(), 154);
    assert_eq!(goal.matches('o').count(), 1);
    assert_eq!(goal.matches('.').count(), 32);
    assert_eq!(goal.lines().nth(3), Some(" .  .  .  o  .  .  . "));
}

#[test]
fn text_of_moves() {
    assert_eq!(Move { pos: (1, 3), skip: (2, 3), target: (3, 3) }.text(), "13v");
    assert_eq!(Move { pos: (5, 3), skip: (4, 3), target: (3, 3) }.text(), "53^");
    assert_eq!(Move { pos: (3, 1), skip: (3, 2), target: (3, 3) }.text(), "31>");
    assert_eq!(Move { pos: (3, 5), skip: (3, 4), target: (3, 3) }.text(), "35<");
    assert_eq!(Move { pos: (-12, 340), skip: (-12, 341), target: (0, 0) }.text(), "-12340>");
    let mut s = Solution::new();
    assert_eq!(s.text(), "");
    s.push(Move { pos: (1, 3), skip: (2, 3), target: (3, 3) });
    assert_eq!(s.text(), "13v");
    s.push(Move { pos: (2, 1), skip: (2, 2), target: (2, 3) });
    s.push(Move { pos: (0, 2), skip: (1, 2), target: (2, 2) });
    assert_eq!(s.text(), "13v 21> 02v");
}

#[test]
fn decimal_text() {
    for v in [0i64, 7, 10, 99, 100, 12345, -1, -10, -999, i64::MAX, i64::MIN, i64::MIN + 1] {
        let mut s = String::from("x");
        push_decimal(&mut s, v);
        assert_eq!(s, format!("x{v}"));
    }
}

#[test]
fn pagoda_counts_the_pivots() {
    assert_eq!(pagoda(Board::solved()), 1);
    assert_eq!(pagoda(Board::default()), 4);
    assert_eq!(pagoda(Board::full()), 5);
    assert_eq!(pagoda(Board::empty()), 0);
    assert_eq!(pagoda(Board::empty().set((2, 2)).set((0, 3))), 0);
    let weights: usize = (0..64).map(pagoda_weight).sum();
    assert_eq!(weights, 5);
    for idx in [11, 25, 27, 29, 43] {
        assert_eq!(pagoda_weight(idx), 1);
    }
    // no move makes the weight greater
    let mut board = Board::default();
    for i in 0..25 {
        let moves = board.get_legal_moves();
        if moves.is_empty() {
            break;
        }
        for m in &moves {
            assert!(pagoda(board.mov(*m)) <= pagoda(board));
        }
        board = board.mov(moves[(3 * i + 1) % moves.len()]);
    }
}

#[test]
fn pruning_by_the_pagoda() {
    let keep = Board::solved();
    let also = Board::default().unset((1, 3));
    let drop = Board::full();
    let mut boards = vec![keep, drop, also, drop];
    assert_eq!(prune_pagoda_inverse(&mut boards), 2);
    assert_eq!(boards, vec![keep, also]);
    let mut none: Vec<Board> = vec![];
    assert_eq!(prune_pagoda_inverse(&mut none), 0);
}
