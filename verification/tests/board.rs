use solitaire_solver::{Board, Dir, Move};

fn some_boards() -> Vec<Board> {
    let mut boards = vec![Board::default(), Board::solved(), Board::full(), Board::empty()];
    // a walk of legal moves from the start gives boards without symmetry
    let mut board = Board::default();
    for _ in 0..12 {
        let moves = board.get_legal_moves();
        if moves.is_empty() {
            break;
        }
        board = board.mov(moves[moves.len() / 2]);
        boards.push(board);
    }
    boards.push(Board::from_compressed_repr(0x1_2345_6789));
    boards.push(Board::from_compressed_repr(0x0_dead_beef));
    boards
}

#[test]
fn test_compression() {
    let board = Board::default().set((3, 3));
    let compressed = board.to_compressed_repr();
    assert_eq!(compressed, 0x1_ffff_ffff);
    println!("{:b}", compressed);
    println!("{:b}", board.0);
    let decompressed = Board::from_compressed_repr(compressed);
    println!("{:b}", decompressed.0);
    assert_eq!(decompressed, board);
}

#[test]
fn constants_of_the_board() {
    assert_eq!(Board::SLOTS, 33);
    assert_eq!(Board::SIZE, 7);
    assert_eq!(Board::REPR, 8);
    assert_eq!(Board::full().0, 0x001c_1c7f_7f7f_1c1c);
    assert_eq!(Board::empty().0, 0);
    assert_eq!(Board::default().0, 0x001c_1c7f_777f_1c1c);
    assert_eq!(Board::solved().0, 1 << 27);
    assert_eq!(Board::full().count_balls(), 33);
    assert_eq!(Board::default().count_balls(), 32);
    assert_eq!(Board::solved().count_balls(), 1);
    assert_eq!(Board::empty().count_balls(), 0);
    assert!(Board::solved().is_solved());
    assert!(!Board::default().is_solved());
}

#[test]
fn inbounds_is_the_cross() {
    for y in -3..10i64 {
        for x in -3..10i64 {
            let expected = (0..7).contains(&y)
                && (0..7).contains(&x)
                && ((2..=4).contains(&y) || (2..=4).contains(&x));
            assert_eq!(Board::inbounds((y, x)), expected, "({y}, {x})");
        }
    }
    // the four corners of two by two cells
    for (y, x) in [(0, 0), (0, 1), (1, 0), (1, 1), (0, 5), (0, 6), (1, 5), (1, 6)] {
        assert!(!Board::inbounds((y, x)));
        assert!(!Board::inbounds((6 - y, x)));
    }
    assert!(!Board::inbounds((i64::MIN, 3)));
    assert!(!Board::inbounds((3, i64::MAX)));
    assert_eq!((0..7).flat_map(|y| (0..7).map(move |x| (y, x))).filter(|p| Board::inbounds(*p)).count(), 33);
}

#[test]
fn occupied_reads_the_cell() {
    let start = Board::default();
    assert!(!start.occupied((3, 3)));
    assert!(start.occupied((3, 2)));
    assert!(start.occupied((0, 2)));
    assert!(!start.occupied((0, 0)));
    assert!(!start.occupied((-1, 3)));
    assert!(!start.occupied((3, 8)));
    assert!(start.occupied_idx(8 * 3 + 2));
    assert!(!start.occupied_idx(27));
    let set = Board::empty().set((2, 5));
    assert_eq!(set.0, 1 << 21);
    assert_eq!(set.unset((2, 5)), Board::empty());
}

#[test]
fn first_move_of_the_game() {
    let start = Board::default();
    let m = Move { pos: (1, 3), skip: (2, 3), target: (3, 3) };
    let after = start.mov(m);
    assert!(!after.occupied((1, 3)));
    assert!(!after.occupied((2, 3)));
    assert!(after.occupied((3, 3)));
    assert!(!after.is_solved());
    assert_eq!(after.count_balls(), 31);
    assert_eq!(after.0, (start.0 & !(1 << 11) & !(1 << 19)) | (1 << 27));
    assert_eq!(after.reverse_mov(m), start);
}

#[test]
fn reverse_move_undoes_move() {
    for board in some_boards() {
        for m in board.get_legal_moves() {
            let after = board.mov(m);
            assert_eq!(after.count_balls() + 1, board.count_balls());
            assert!(after.can_take_back(m));
            assert_eq!(after.reverse_mov(m), board);
        }
        for m in board.get_legal_inverse_moves() {
            let before = board.reverse_mov(m);
            assert!(before.can_play(m));
            assert_eq!(before.mov(m), board);
        }
    }
}

#[test]
fn inverse_twice_is_identity() {
    for board in some_boards() {
        assert_eq!(board.inverse().inverse(), board);
        assert_eq!(board.inverse().count_balls(), 33 - board.count_balls());
        assert_eq!(board.inverse().0 & board.0, 0);
        assert_eq!(board.inverse().0 | board.0, Board::full().0);
    }
    assert_eq!(Board::default().inverse(), Board::solved());
    assert_eq!(Board::full().inverse(), Board::empty());
    // pegs outside the cross are dropped
    assert_eq!(Board(u64::MAX).inverse(), Board::empty());
}

#[test]
fn compression_round_trip() {
    for board in some_boards() {
        let key = board.to_compressed_repr();
        assert!(key < 1 << 33);
        assert_eq!(Board::from_compressed_repr(key), board);
        assert_eq!(key.count_ones() as u64, board.count_balls());
    }
    for key in [0u64, 1, 0x1_ffff_ffff, 0x1_0000_0000, 0xffff_ffff, 0x5555_5555, 0x1_2345_6789] {
        assert_eq!(Board::from_compressed_repr(key).to_compressed_repr(), key);
    }
    // bits above the low 33 are ignored
    assert_eq!(Board::from_compressed_repr(u64::MAX), Board::full());
}

#[test]
fn compression_layout() {
    let cells: Vec<(i64, i64)> = (0..7)
        .flat_map(|y| (0..7).map(move |x| (y, x)))
        .filter(|p| Board::inbounds(*p))
        .collect();
    for (bit, pos) in cells.iter().enumerate() {
        let board = Board::empty().set(*pos);
        assert_eq!(board.to_compressed_repr(), 1 << bit);
        assert_eq!(Board::from_compressed_repr(1 << bit), board);
    }
    assert_eq!(Board::empty().set((0, 2)).to_compressed_repr(), 1);
    assert_eq!(Board::empty().set((1, 2)).to_compressed_repr(), 1 << 3);
    assert_eq!(Board::empty().set((2, 0)).to_compressed_repr(), 1 << 6);
    assert_eq!(Board::empty().set((3, 0)).to_compressed_repr(), 1 << 13);
    assert_eq!(Board::empty().set((4, 0)).to_compressed_repr(), 1 << 20);
    assert_eq!(Board::empty().set((5, 2)).to_compressed_repr(), 1 << 27);
    assert_eq!(Board::empty().set((6, 4)).to_compressed_repr(), 1 << 32);
}

#[test]
fn default_round_trip_has_32_bits() {
    let key = Board::default().to_compressed_repr();
    assert_eq!(key.count_ones(), 32);
    assert!(key < 1 << 33);
    assert_eq!(key, 0x1_ffff_ffff & !(1 << 16));
    assert_eq!(Board::from_compressed_repr(key), Board::default());
}

#[test]
fn compression_keeps_the_order() {
    let boards = some_boards();
    for a in &boards {
        for b in &boards {
            assert_eq!(a.0 < b.0, a.to_compressed_repr() < b.to_compressed_repr());
        }
    }
}

#[test]
fn is_solvable_looks_at_the_pivots() {
    assert!(Board::default().is_solvable());
    assert!(Board::solved().is_solvable());
    assert!(!Board::empty().is_solvable());
    for pos in [(1, 3), (3, 1), (3, 3), (3, 5), (5, 3)] {
        assert!(Board::empty().set(pos).is_solvable());
    }
    assert!(!Board::empty().set((2, 2)).set((0, 3)).is_solvable());
    let without = [(1, 3), (3, 1), (3, 3), (3, 5), (5, 3)]
        .iter()
        .fold(Board::full(), |b, p| b.unset(*p));
    assert!(!without.is_solvable());
    assert_eq!(without.count_balls(), 28);
}

#[test]
fn dir_mov_and_enumerate() {
    assert_eq!(Dir::enumerate(), [Dir::North, Dir::West, Dir::East, Dir::South]);
    assert_eq!(Dir::North.mov((3, 3)), ((2, 3), (1, 3)));
    assert_eq!(Dir::South.mov((3, 3)), ((4, 3), (5, 3)));
    assert_eq!(Dir::West.mov((3, 3)), ((3, 2), (3, 1)));
    assert_eq!(Dir::East.mov((3, 3)), ((3, 4), (3, 5)));
    assert_eq!(Dir::North.symbol(), '^');
    assert_eq!(Dir::West.symbol(), '<');
    assert_eq!(Dir::East.symbol(), '>');
    assert_eq!(Dir::South.symbol(), 'v');
}

#[test]
fn move_direction() {
    assert_eq!(Move { pos: (1, 3), skip: (2, 3), target: (3, 3) }.dir(), Dir::South);
    assert_eq!(Move { pos: (5, 3), skip: (4, 3), target: (3, 3) }.dir(), Dir::North);
    assert_eq!(Move { pos: (3, 1), skip: (3, 2), target: (3, 3) }.dir(), Dir::East);
    assert_eq!(Move { pos: (3, 5), skip: (3, 4), target: (3, 3) }.dir(), Dir::West);
    assert_eq!(Move::default(), Move { pos: (0, 0), skip: (0, 0), target: (0, 0) });
}

#[test]
fn operators_on_boards() {
    let a = Board::default();
    let b = Board::solved();
    assert_eq!((a & b).0, 0);
    assert_eq!(a | b, Board::full());
    assert_eq!(a ^ Board::full(), b);
    assert_eq!((a & 0xff).0, 0x1c);
    assert_eq!(!a & Board::full(), b);
    assert_eq!((b << 1).0, 1 << 28);
    assert_eq!((b >> 27).0, 1);
    let mut c = a;
    c |= b;
    assert_eq!(c, Board::full());
    c &= b;
    assert_eq!(c, b);
}
