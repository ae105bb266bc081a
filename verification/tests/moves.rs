use solitaire_solver::{Board, Dir, Move};

fn walk(steps: usize) -> Vec<Board> {
    let mut boards = vec![Board::default()];
    let mut board = Board::default();
    for i in 0..steps {
        let moves = board.get_legal_moves();
        if moves.is_empty() {
            break;
        }
        board = board.mov(moves[(i * 7 + 3) % moves.len()]);
        boards.push(board);
    }
    boards
}

fn brute_force_moves(board: Board) -> Vec<Move> {
    let mut moves = vec![];
    for y in 0..8i64 {
        for x in 0..8i64 {
            for (dy, dx) in [(-1, 0), (0, -1), (0, 1), (1, 0)] {
                let m = Move { pos: (y, x), skip: (y + dy, x + dx), target: (y + 2 * dy, x + 2 * dx) };
                if Board::inbounds(m.pos)
                    && Board::inbounds(m.target)
                    && board.occupied(m.pos)
                    && board.occupied(m.skip)
                    && !board.occupied(m.target)
                {
                    moves.push(m);
                }
            }
        }
    }
    moves
}

#[test]
fn no_moves_on_empty_or_solved() {
    assert!(Board::empty().get_legal_moves().is_empty());
    assert!(Board::solved().get_legal_moves().is_empty());
    assert!(Board::empty().get_legal_inverse_moves().is_empty());
    assert!(Board::full().get_legal_moves().is_empty());
}

#[test]
fn four_moves_at_the_start() {
    let moves = Board::default().get_legal_moves();
    assert_eq!(
        moves,
        vec![
            Move { pos: (1, 3), skip: (2, 3), target: (3, 3) },
            Move { pos: (3, 1), skip: (3, 2), target: (3, 3) },
            Move { pos: (3, 5), skip: (3, 4), target: (3, 3) },
            Move { pos: (5, 3), skip: (4, 3), target: (3, 3) },
        ]
    );
    for m in moves {
        assert_eq!(m.target, (3, 3));
    }
}

#[test]
fn inverse_moves_of_the_goal() {
    let moves = Board::solved().get_legal_inverse_moves();
    assert_eq!(
        moves,
        vec![
            Move { pos: (1, 3), skip: (2, 3), target: (3, 3) },
            Move { pos: (3, 1), skip: (3, 2), target: (3, 3) },
            Move { pos: (3, 5), skip: (3, 4), target: (3, 3) },
            Move { pos: (5, 3), skip: (4, 3), target: (3, 3) },
        ]
    );
    for m in moves {
        assert_eq!(Board::solved().reverse_mov(m).count_balls(), 2);
    }
}

#[test]
fn legal_moves_are_all_and_only_the_legal_ones() {
    for board in walk(25) {
        assert_eq!(board.get_legal_moves(), brute_force_moves(board));
        for m in board.get_legal_moves() {
            assert!(board.can_play(m));
            assert_eq!(board.get_legal_move(m.pos, m.dir()), Some(m));
            assert_eq!(board.is_legal_move(m.pos, m.target), Some(m));
        }
    }
}

#[test]
fn get_legal_move_wants_a_peg_a_peg_and_a_hole() {
    let start = Board::default();
    assert_eq!(
        start.get_legal_move((1, 3), Dir::South),
        Some(Move { pos: (1, 3), skip: (2, 3), target: (3, 3) })
    );
    assert_eq!(start.get_legal_move((1, 3), Dir::North), None);
    assert_eq!(start.get_legal_move((3, 3), Dir::North), None);
    assert_eq!(start.get_legal_move((0, 0), Dir::East), None);
    assert_eq!(start.get_legal_move((i64::MAX, i64::MIN), Dir::East), None);
    assert_eq!(start.get_legal_inverse_move((3, 3), Dir::North), None);
    assert_eq!(
        Board::solved().get_legal_inverse_move((3, 3), Dir::North),
        Some(Move { pos: (1, 3), skip: (2, 3), target: (3, 3) })
    );
    assert_eq!(Board::solved().get_legal_inverse_move((3, 2), Dir::North), None);
}

#[test]
fn is_legal_move_reads_a_drag() {
    let start = Board::default();
    assert_eq!(
        start.is_legal_move((3, 1), (3, 3)),
        Some(Move { pos: (3, 1), skip: (3, 2), target: (3, 3) })
    );
    assert_eq!(start.is_legal_move((3, 1), (3, 2)), None);
    assert_eq!(start.is_legal_move((3, 1), (5, 3)), None);
    assert_eq!(start.is_legal_move((3, 3), (3, 1)), None);
    assert_eq!(start.is_legal_move((3, 1), (3, 1)), None);
    assert_eq!(start.is_legal_move((2, 2), (4, 4)), None);
    assert_eq!(start.is_legal_move((i64::MIN, 0), (i64::MAX, 0)), None);
}

#[test]
fn pattern_mask_counts_the_moves_of_a_direction() {
    for board in walk(25) {
        let mut total = 0;
        for dir in Dir::enumerate() {
            let mask = board.mov_pattern_mask(dir);
            let moves: Vec<Move> =
                board.get_legal_moves().into_iter().filter(|m| m.dir() == dir).collect();
            assert_eq!(mask.count_balls(), moves.len() as u64);
            for m in &moves {
                assert!(mask.occupied(m.pos));
            }
            let back = board.rev_mov_pattern_mask(dir);
            let inverse: Vec<Move> = board
                .get_legal_inverse_moves()
                .into_iter()
                .filter(|m| board.get_legal_inverse_move(m.target, dir) == Some(*m))
                .collect();
            assert_eq!(back.count_balls(), inverse.len() as u64);
            total += moves.len();
        }
        assert_eq!(total, board.get_legal_moves().len());
    }
    assert_eq!(Board::default().mov_pattern_mask(Dir::South).0, 1 << 11);
    assert_eq!(Board::default().mov_pattern_mask(Dir::North).0, 1 << 43);
    assert_eq!(Board::default().mov_pattern_mask(Dir::East).0, 1 << 25);
    assert_eq!(Board::default().mov_pattern_mask(Dir::West).0, 1 << 29);
    assert_eq!(Board::solved().rev_mov_pattern_mask(Dir::North).0, 1 << 27);
}

#[test]
fn movable_positions_by_direction() {
    let b = Board::empty();
    assert_eq!(b.movable_positions(Dir::East).0, 0x0004_041f_1f1f_0404);
    assert_eq!(b.movable_positions(Dir::West).0, 0x0010_107c_7c7c_1010);
    assert_eq!(b.movable_positions(Dir::North).0, 0x001c_1c7f_1c1c_0000);
    assert_eq!(b.movable_positions(Dir::South).0, 0x0000_001c_1c7f_1c1c);
    for dir in Dir::enumerate() {
        assert_eq!(b.movable_positions(dir).count_balls(), 19);
        for y in 0..7i64 {
            for x in 0..7i64 {
                let (_, target) = dir.mov((y, x));
                assert_eq!(
                    b.movable_positions(dir).occupied((y, x)),
                    Board::inbounds((y, x)) && Board::inbounds(target)
                );
            }
        }
    }
}

#[test]
fn shift_moves_the_board() {
    let b = Board::default();
    assert_eq!(b.shift(Dir::East, 1).0, b.0 >> 1);
    assert_eq!(b.shift(Dir::West, 2).0, b.0 << 2);
    assert_eq!(b.shift(Dir::South, 1).0, b.0 >> 8);
    assert_eq!(b.shift(Dir::North, 2).0, b.0 << 16);
    assert_eq!(b.shift(Dir::North, 0), b);
    assert_eq!(b.shift(Dir::North, 8).0, 0);
    assert_eq!(b.shift(Dir::East, 64).0, 0);
    assert_eq!(b.shift(Dir::South, u32::MAX).0, 0);
}

#[test]
fn toggle_plays_and_takes_back() {
    let start = Board::default();
    let m = Move { pos: (1, 3), skip: (2, 3), target: (3, 3) };
    let idx = 8 + 3;
    assert!(start.movable_at_no_bounds_check(idx, Dir::South));
    // nothing is asked of where the cells lie: (1, 5) is off the cross and empty
    assert!(start.movable_at_no_bounds_check(idx, Dir::East));
    assert!(!start.movable_at_no_bounds_check(16, Dir::East));
    assert!(!start.reverse_movable_at_no_bounds_check(idx, Dir::South));
    let after = start.toggle_mov_idx_unchecked(idx, Dir::South);
    assert_eq!(after, start.mov(m));
    // the peg on the landing cell can go back north
    assert!(after.reverse_movable_at_no_bounds_check(27, Dir::North));
    assert_eq!(after.toggle_mov_idx_unchecked(27, Dir::North), start);
    for board in walk(20) {
        for m in board.get_legal_moves() {
            let idx = (8 * m.pos.0 + m.pos.1) as usize;
            assert!(board.movable_at_no_bounds_check(idx, m.dir()));
            assert_eq!(board.toggle_mov_idx_unchecked(idx, m.dir()), board.mov(m));
        }
    }
    assert_eq!(Board::empty().toggle_mov_idx_unchecked(10, Dir::East).0, 7 << 10);
    assert_eq!(Board::empty().toggle_mov_idx_unchecked(10, Dir::West).0, 7 << 8);
    assert_eq!(Board::empty().toggle_mov_idx_unchecked(20, Dir::North).0, 0x01_0101 << 4);
    assert_eq!(Board::empty().toggle_mov_idx_unchecked(20, Dir::South).0, 0x01_0101 << 20);
}
