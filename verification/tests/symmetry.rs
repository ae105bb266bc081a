use solitaire_solver::Board;

fn lopsided() -> Vec<Board> {
    let mut boards = vec![];
    let mut board = Board::default();
    for i in 0..20 {
        let moves = board.get_legal_moves();
        if moves.is_empty() {
            break;
        }
        board = board.mov(moves[(i * 5 + 1) % moves.len()]);
        boards.push(board);
    }
    boards.push(Board::empty().set((0, 2)));
    boards.push(Board::empty().set((2, 0)).set((2, 1)).set((0, 4)));
    boards
}

fn image(board: Board, map: impl Fn(i64, i64) -> (i64, i64)) -> Board {
    let mut out = Board::empty();
    for y in 0..7 {
        for x in 0..7 {
            if board.occupied(map(y, x)) {
                out = out.set((y, x));
            }
        }
    }
    out
}

#[test]
fn each_symmetry_moves_the_cells() {
    for b in lopsided() {
        assert_eq!(b.reverse_rows(), image(b, |y, x| (y, 6 - x)));
        assert_eq!(b.reverse_cols(), image(b, |y, x| (6 - y, x)));
        assert_eq!(b.rotate_180(), image(b, |y, x| (6 - y, 6 - x)));
        assert_eq!(b.transpose(), image(b, |y, x| (x, y)));
        let s = b.symmetries();
        assert_eq!(s.len(), 8);
        assert_eq!(s[0], b);
        assert_eq!(s[1], image(b, |y, x| (6 - x, y)));
        assert_eq!(s[2], image(b, |y, x| (6 - y, 6 - x)));
        assert_eq!(s[3], image(b, |y, x| (x, 6 - y)));
        assert_eq!(s[4], image(b, |y, x| (6 - y, x)));
        assert_eq!(s[5], image(b, |y, x| (y, 6 - x)));
        assert_eq!(s[6], image(b, |y, x| (6 - x, 6 - y)));
        assert_eq!(s[7], image(b, |y, x| (x, y)));
        for image in s {
            assert_eq!(image.count_balls(), b.count_balls());
            assert_eq!(image.0 & !Board::full().0, 0);
        }
    }
}

#[test]
fn one_peg_in_a_corner_of_the_cross() {
    let b = Board::empty().set((0, 2));
    assert_eq!(b.reverse_rows(), Board::empty().set((0, 4)));
    assert_eq!(b.reverse_cols(), Board::empty().set((6, 2)));
    assert_eq!(b.rotate_180(), Board::empty().set((6, 4)));
    assert_eq!(b.transpose(), Board::empty().set((2, 0)));
    assert_eq!(b.normalize(), b);
    assert_eq!(Board::empty().set((6, 4)).normalize(), b);
}

#[test]
fn normalize_is_the_least_image() {
    for b in lopsided() {
        let n = b.normalize();
        let images = b.symmetries();
        assert!(images.contains(&n));
        for image in images {
            assert!(n.0 <= image.0);
            assert_eq!(image.normalize(), n);
        }
        assert_eq!(n.normalize(), n);
    }
}

#[test]
fn symmetries_form_a_group() {
    for b in lopsided() {
        let images = b.symmetries();
        for first in images {
            for second in first.symmetries() {
                assert!(images.contains(&second));
            }
        }
        // the quarter turn four times, each reflection twice
        let quarter = |x: Board| x.symmetries()[1];
        assert_eq!(quarter(quarter(quarter(quarter(b)))), b);
        assert_eq!(quarter(quarter(b)), b.rotate_180());
        assert_eq!(b.reverse_rows().reverse_rows(), b);
        assert_eq!(b.reverse_cols().reverse_cols(), b);
        assert_eq!(b.transpose().transpose(), b);
        assert_eq!(b.rotate_180().rotate_180(), b);
    }
}

#[test]
fn start_and_goal_are_symmetric() {
    for image in Board::default().symmetries() {
        assert_eq!(image, Board::default());
    }
    for image in Board::solved().symmetries() {
        assert_eq!(image, Board::solved());
    }
    assert_eq!(Board::default().normalize(), Board::default());
}

#[test]
fn inverse_goes_with_the_symmetries() {
    for b in lopsided() {
        for (k, image) in b.symmetries().into_iter().enumerate() {
            assert_eq!(b.inverse().symmetries()[k], image.inverse());
        }
        let n = b.normalize();
        assert_eq!(n.inverse().normalize().inverse().normalize(), n);
    }
}
