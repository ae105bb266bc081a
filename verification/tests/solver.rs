use solitaire_solver::expand::{possible_moves, possible_moves_par, reverse_moves, reverse_moves_par};
use solitaire_solver::parallel::{dedup_boards, intersect_sorted_vecs, par_dedup, par_join, par_map_chunks, parallel};
use solitaire_solver::{calculate_all_solutions, Board, BoardSet, Sort};

#[test]
fn all_solutions() {
    let all = calculate_all_solutions(4);
    assert_eq!(all.len(), 1_679_072);
    assert_eq!(all[0], Board::solved());
    assert_eq!(all[1], Board::default());
    // each board is canonical and stands on the cross
    for b in all.iter().step_by(97) {
        assert_eq!(b.normalize(), *b);
        assert_eq!(b.0 & !Board::full().0, 0);
    }
    // the boards come in pairs
    for pair in all.chunks(2).step_by(101) {
        assert_eq!(pair[1], pair[0].inverse().normalize());
        assert!(pair[0].count_balls() <= 16);
    }
    // sorted by the compressed form, the boards are strictly increasing
    let mut sorted = all.clone();
    sorted.fast_sort_unstable_mt(4);
    let mut last = None;
    for b in &sorted {
        let key = b.to_compressed_repr();
        assert!(last < Some(key));
        last = Some(key);
    }
    let mut set = BoardSet::new();
    for b in &all {
        set.insert(*b);
    }
    assert_eq!(set.len(), 1_679_072);
    assert!(!set.contains(&Board::full()));
    // the set is closed under the pairing
    for b in all.iter().step_by(89) {
        assert!(set.contains(&b.inverse().normalize()));
    }
    // moves between solvable boards can be taken back
    for b in all.iter().step_by(1009) {
        for m in b.get_legal_moves() {
            let next = b.mov(m);
            if set.contains(&next.normalize()) {
                assert_eq!(next.reverse_mov(m).normalize(), *b);
            }
        }
    }
    // every board but the goal has a move to a solvable board
    for b in all.iter().skip(1).step_by(499) {
        let moves = b.get_legal_moves();
        assert!(moves.iter().any(|m| set.contains(&b.mov(*m).normalize())));
    }
}

#[test]
fn moves_from_the_goal_and_the_start() {
    let two = reverse_moves(&[Board::solved()]);
    assert_eq!(two.len(), 4);
    let expected = Board::empty().set((1, 3)).set((2, 3)).normalize();
    assert!(two.iter().all(|b| *b == expected));
    let first = possible_moves(&[Board::default()]);
    assert_eq!(first.len(), 4);
    let expected = Board::default().unset((1, 3)).unset((2, 3)).set((3, 3)).normalize();
    assert!(first.iter().all(|b| *b == expected));
    assert_eq!(possible_moves(&[]), vec![]);
    assert_eq!(possible_moves(&[Board::solved(), Board::empty()]), vec![]);
}

#[test]
fn expansion_by_direction_then_board() {
    let a = Board::default();
    let b = Board::default().unset((1, 3)).unset((2, 3)).set((3, 3));
    let out = possible_moves(&[a, b]);
    let mut expected = vec![];
    for dir in solitaire_solver::Dir::enumerate() {
        for board in [a, b] {
            for m in board.get_legal_moves() {
                if m.dir() == dir {
                    expected.push(board.mov(m).normalize());
                }
            }
        }
    }
    assert_eq!(out, expected);
}

#[test]
fn chunked_expansion_has_the_same_boards() {
    let mut layer = vec![Board::solved()];
    for _ in 0..6 {
        let mut next = reverse_moves_par(&layer, 3);
        next.fast_sort_unstable();
        layer = dedup_boards(&next);
    }
    assert!(layer.len() > 400);
    let mut whole = possible_moves(&layer);
    let mut chunked = possible_moves_par(&layer, 3);
    assert_eq!(whole.len(), chunked.len());
    whole.fast_sort_unstable();
    chunked.fast_sort_unstable_mt(3);
    assert_eq!(whole, chunked);
    assert!(whole.windows(2).all(|w| w[0].0 <= w[1].0));
}

#[test]
fn sort_puts_boards_in_order() {
    let mut layer = vec![Board::solved()];
    for _ in 0..9 {
        let mut next = reverse_moves(&layer);
        next.fast_sort_unstable();
        layer = dedup_boards(&next);
    }
    let mut boards = reverse_moves(&layer);
    assert!(boards.len() > 130_000);
    let mut expected = boards.clone();
    expected.sort();
    let mut single = boards.clone();
    single.fast_sort_unstable();
    assert_eq!(single, expected);
    boards.fast_sort_unstable_mt(4);
    assert_eq!(boards, expected);
    assert_ne!(boards, reverse_moves(&layer));
    let mut few = vec![Board::full(), Board::solved(), Board::default(), Board::solved()];
    few.fast_sort_unstable_mt(1);
    assert_eq!(few, vec![Board::solved(), Board::solved(), Board::default(), Board::full()]);
    let mut none: Vec<Board> = vec![];
    none.fast_sort_unstable_mt(2);
    assert!(none.is_empty());
}

#[test]
fn dedup_drops_repetitions() {
    let b = |k: u64| Board::from_compressed_repr(k);
    let v = vec![b(1), b(1), b(2), b(3), b(3), b(3), b(7)];
    assert_eq!(dedup_boards(&v), vec![b(1), b(2), b(3), b(7)]);
    assert_eq!(par_dedup(&v, 1), vec![b(1), b(2), b(3), b(7)]);
    assert_eq!(par_dedup(&vec![], 4), vec![]);
    // long enough to be cut into chunks, with repetitions across the cuts
    let long: Vec<Board> = (0..1000u64).map(|i| b(i / 7)).collect();
    let expected: Vec<Board> = (0..143u64).map(b).collect();
    for threads in 1..8 {
        assert_eq!(par_dedup(&long, threads), expected);
    }
    let same: Vec<Board> = (0..1000).map(|_| b(5)).collect();
    assert_eq!(par_dedup(&same, 4), vec![b(5)]);
}

#[test]
fn chunks_and_join() {
    let v: Vec<u32> = (0..1000).collect();
    let lens = |threads| par_map_chunks(&v, threads, |c: &[u32]| c.len());
    assert_eq!(lens(1), vec![1000]);
    assert_eq!(lens(2), vec![500, 500]);
    assert_eq!(lens(3), vec![334, 334, 332]);
    assert_eq!(lens(4), vec![250, 250, 250, 250]);
    assert_eq!(lens(7), vec![143, 143, 143, 143, 143, 143, 142]);
    assert_eq!(lens(10), vec![100; 10]);
    assert_eq!(lens(11), vec![1000]);
    let short: Vec<u32> = (0..399).collect();
    assert_eq!(par_map_chunks(&short, 4, |c: &[u32]| c.len()), vec![399]);
    let none: Vec<u32> = vec![];
    assert_eq!(par_map_chunks(&none, 4, |c: &[u32]| c.len()), vec![0]);
    let firsts = par_map_chunks(&v, 4, |c: &[u32]| c[0]);
    assert_eq!(firsts, vec![0, 250, 500, 750]);
    assert_eq!(par_join(&vec![vec![1, 2], vec![], vec![3], vec![4, 5, 6]]), vec![1, 2, 3, 4, 5, 6]);
    assert_eq!(par_join::<u8>(&vec![]), vec![]);
    let doubled = parallel(&v, 4, |c: &[u32]| c.iter().map(|x| 2 * x).collect::<Vec<u32>>());
    assert_eq!(doubled, v.iter().map(|x| 2 * x).collect::<Vec<u32>>());
}

#[test]
fn intersection_of_sorted_lists() {
    let b = |k: u64| Board::from_compressed_repr(k);
    let a = vec![b(1), b(3), b(5), b(7), b(9)];
    let c = vec![b(2), b(3), b(4), b(7), b(8), b(9), b(10)];
    assert_eq!(intersect_sorted_vecs(&a, &c), vec![b(3), b(7), b(9)]);
    assert_eq!(intersect_sorted_vecs(&c, &a), vec![b(3), b(7), b(9)]);
    assert_eq!(intersect_sorted_vecs(&a, &[]), vec![]);
    assert_eq!(intersect_sorted_vecs(&[], &a), vec![]);
    assert_eq!(intersect_sorted_vecs(&a, &a), a);
    assert_eq!(intersect_sorted_vecs(&a, &[b(0), b(2), b(11)]), vec![]);
}

#[test]
fn intersection_with_repeated_boards() {
    let b = |k: u64| Board::from_compressed_repr(k);
    // a board comes out as often as in the list that holds it less often
    let a = vec![b(1), b(1), b(2), b(2), b(2), b(3), b(5), b(5)];
    let c = vec![b(1), b(2), b(2), b(4), b(5), b(5), b(5)];
    assert_eq!(intersect_sorted_vecs(&a, &c), vec![b(1), b(2), b(2), b(5), b(5)]);
    assert_eq!(intersect_sorted_vecs(&c, &a), vec![b(1), b(2), b(2), b(5), b(5)]);
    assert_eq!(intersect_sorted_vecs(&a, &a), a);
    assert_eq!(intersect_sorted_vecs(&[b(7), b(7), b(7)], &[b(7)]), vec![b(7)]);
}

#[test]
fn sort_with_any_number_of_workers() {
    let b = |k: u64| Board::from_compressed_repr(k);
    let boards: Vec<Board> = (0..3000u64).map(|k| b((k * 7919) % 3001)).collect();
    let mut expected = boards.clone();
    expected.sort();
    for threads in [0, 1, 2, 256, 257, 100_000, usize::MAX] {
        let mut sorted = boards.clone();
        sorted.fast_sort_unstable_mt(threads);
        assert_eq!(sorted, expected);
    }
}

#[test]
fn sort_of_a_long_list_with_too_many_workers() {
    let b = |k: u64| Board::from_compressed_repr(k);
    let n = 2_100_000u64;
    let mut boards: Vec<Board> = (0..n).map(|k| b((k * 1_000_003) % 2_100_001)).collect();
    boards.fast_sort_unstable_mt(100_000);
    assert_eq!(boards.len(), 2_100_000);
    assert!(boards.windows(2).all(|w| w[0].to_compressed_repr() < w[1].to_compressed_repr()));
    assert_eq!(boards[0], b(0));
    assert_eq!(boards[2_099_999], b(2_100_000));
}

#[test]
fn board_set_holds_boards() {
    let mut set = BoardSet::new();
    assert_eq!(set.len(), 0);
    assert!(!set.contains(&Board::default()));
    assert!(set.insert(Board::default()));
    assert!(!set.insert(Board::default()));
    assert!(set.insert(Board::solved()));
    assert!(set.contains(&Board::default()));
    assert!(set.contains(&Board::solved()));
    assert!(!set.contains(&Board::empty()));
    assert_eq!(set.len(), 2);
}
