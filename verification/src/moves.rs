//! The legal moves of a board: one by one from a cell and a direction, all of
//! them as a list, and all of one direction at once as a mask of the cells
//! they start from.

use crate::bits::{bit, lemma_bit_ops, lemma_bit_shift, lemma_bit_single, lemma_lowest_bit};
use crate::board::{at, in_cross, Board};
use crate::dir::{Dir, Idx};
use crate::mov::Move;
use vstd::prelude::*;

verus! {

/// The cells from which a jump to the north stays on the cross.
pub const MOVABLE_NORTH: u64 = 0x001c_1c7f_1c1c_0000;

/// The cells from which a jump to the west stays on the cross.
pub const MOVABLE_WEST: u64 = 0x0010_107c_7c7c_1010;

/// The cells from which a jump to the east stays on the cross.
pub const MOVABLE_EAST: u64 = 0x0004_041f_1f1f_0404;

/// The cells from which a jump to the south stays on the cross.
pub const MOVABLE_SOUTH: u64 = 0x0000_001c_1c7f_1c1c;

/// The cell with the index `i` in the word: row `i / 8`, column `i % 8`.
pub open spec fn cell_of(i: int) -> (Idx, Idx) {
    ((i / 8) as i64, (i % 8) as i64)
}

/// A move that may be missing, as a list of no move or one.
pub open spec fn opt_seq(m: Option<Move>) -> Seq<Move> {
    match m {
        Some(m) => seq![m],
        None => Seq::empty(),
    }
}

proof fn lemma_movable_bit(i: u64)
    by (bit_vector)
    requires
        i < 64,
    ensures
        bit(MOVABLE_NORTH, i as int) == (2 <= i / 8 < 7 && i % 8 < 7 && (2 <= i % 8 <= 4 || i / 8
            == 4)),
        bit(MOVABLE_SOUTH, i as int) == (i / 8 < 5 && i % 8 < 7 && (2 <= i % 8 <= 4 || i / 8 == 2)),
        bit(MOVABLE_WEST, i as int) == (i / 8 < 7 && 2 <= i % 8 < 7 && (2 <= i / 8 <= 4 || i % 8
            == 4)),
        bit(MOVABLE_EAST, i as int) == (i / 8 < 7 && i % 8 < 5 && (2 <= i / 8 <= 4 || i % 8 == 2)),
{
}

proof fn lemma_row_tests(a: u64, k: u64)
    by (bit_vector)
    requires
        k < 62,
    ensures
        ((a & (7u64 << k)) == (3u64 << k)) == (bit(a, k as int) && bit(a, (k + 1) as int) && !bit(
            a,
            (k + 2) as int,
        )),
        ((a & (7u64 << k)) == (6u64 << k)) == (!bit(a, k as int) && bit(a, (k + 1) as int) && bit(
            a,
            (k + 2) as int,
        )),
        ((a & (7u64 << k)) == (1u64 << k)) == (bit(a, k as int) && !bit(a, (k + 1) as int) && !bit(
            a,
            (k + 2) as int,
        )),
        ((a & (7u64 << k)) == (4u64 << k)) == (!bit(a, k as int) && !bit(a, (k + 1) as int) && bit(
            a,
            (k + 2) as int,
        )),
{
}

proof fn lemma_column_tests(a: u64, k: u64)
    by (bit_vector)
    requires
        k < 48,
    ensures
        ((a & (0x01_0101u64 << k)) == (0x00_0101u64 << k)) == (bit(a, k as int) && bit(
            a,
            (k + 8) as int,
        ) && !bit(a, (k + 16) as int)),
        ((a & (0x01_0101u64 << k)) == (0x01_0100u64 << k)) == (!bit(a, k as int) && bit(
            a,
            (k + 8) as int,
        ) && bit(a, (k + 16) as int)),
        ((a & (0x01_0101u64 << k)) == (0x00_0001u64 << k)) == (bit(a, k as int) && !bit(
            a,
            (k + 8) as int,
        ) && !bit(a, (k + 16) as int)),
        ((a & (0x01_0101u64 << k)) == (0x01_0000u64 << k)) == (!bit(a, k as int) && !bit(
            a,
            (k + 8) as int,
        ) && bit(a, (k + 16) as int)),
{
}

proof fn lemma_toggle_bit(a: u64, k: u64, i: u64)
    by (bit_vector)
    requires
        i < 64,
    ensures
        k < 62 ==> bit(a ^ (7u64 << k), i as int) == (bit(a, i as int) != (k <= i <= k + 2)),
        k < 48 ==> bit(a ^ (0x01_0101u64 << k), i as int) == (bit(a, i as int) != (i == k || i == k
            + 8 || i == k + 16)),
{
}

impl Dir {
    /// The change of the index of a cell that one step in this direction
    /// makes.
    pub open spec fn stride(self) -> int {
        8 * self.dy() + self.dx()
    }

    /// The index, among a jump's three cells, of the one with the least
    /// index in the word, when the jump starts at the cell with index `idx`.
    pub open spec fn low_end(self, idx: int) -> int {
        if self.stride() > 0 {
            idx
        } else {
            idx + 2 * self.stride()
        }
    }

    /// The three cells of a jump in this direction from the cell with index
    /// `idx` have their places in the word.
    pub open spec fn fits(self, idx: int) -> bool {
        0 <= idx < 64 && 0 <= idx + 2 * self.stride() < 64
    }
}

impl Board {
    /// The cells from which a jump in direction `dir` stays on the cross.
    pub open spec fn spec_movable(dir: Dir) -> Board {
        match dir {
            Dir::North => Board(MOVABLE_NORTH),
            Dir::West => Board(MOVABLE_WEST),
            Dir::East => Board(MOVABLE_EAST),
            Dir::South => Board(MOVABLE_SOUTH),
        }
    }

    /// A jump in direction `dir` from `p` is legal: `p` and the two cells
    /// behind it lie on the cross, `p` and the next hold a peg, the last is
    /// empty.
    pub open spec fn can_jump(self, p: (int, int), dir: Dir) -> bool {
        &&& in_cross(p.0, p.1)
        &&& in_cross(p.0 + 2 * dir.dy(), p.1 + 2 * dir.dx())
        &&& self.cell(p.0, p.1)
        &&& self.cell(p.0 + dir.dy(), p.1 + dir.dx())
        &&& !self.cell(p.0 + 2 * dir.dy(), p.1 + 2 * dir.dx())
    }

    /// A jump that landed on `p`, coming against direction `dir`, can be taken
    /// back: `p` and the two cells behind it in direction `dir` lie on the
    /// cross, `p` holds a peg, the other two are empty.
    pub open spec fn can_jump_back(self, p: (int, int), dir: Dir) -> bool {
        &&& in_cross(p.0, p.1)
        &&& in_cross(p.0 + 2 * dir.dy(), p.1 + 2 * dir.dx())
        &&& self.cell(p.0, p.1)
        &&& !self.cell(p.0 + dir.dy(), p.1 + dir.dx())
        &&& !self.cell(p.0 + 2 * dir.dy(), p.1 + 2 * dir.dx())
    }

    /// The legal move from `pos` in direction `dir`, if there is one.
    pub open spec fn spec_legal_move(self, pos: (Idx, Idx), dir: Dir) -> Option<Move> {
        if self.can_jump(at(pos), dir) {
            Some(Move::jump(at(pos), dir))
        } else {
            None
        }
    }

    /// The move that landed on `target`, coming against direction `dir`, if
    /// it can be taken back.
    pub open spec fn spec_legal_inverse_move(self, target: (Idx, Idx), dir: Dir) -> Option<Move> {
        if self.can_jump_back(at(target), dir) {
            Some(Move::jump_back(at(target), dir))
        } else {
            None
        }
    }

    /// The legal moves from the cell with index `i`, in the first `d`
    /// directions of the order north, west, east, south.
    pub open spec fn moves_at(self, i: int, d: int) -> Seq<Move>
        decreases d,
    {
        if d <= 0 {
            Seq::empty()
        } else {
            self.moves_at(i, d - 1) + opt_seq(
                self.spec_legal_move(cell_of(i), Dir::spec_enumerate()[d - 1]),
            )
        }
    }

    /// The legal moves from the cells with an index below `n`, cell after
    /// cell.
    pub open spec fn moves_below(self, n: int) -> Seq<Move>
        decreases n,
    {
        if n <= 0 {
            Seq::empty()
        } else {
            self.moves_below(n - 1) + self.moves_at(n - 1, 4)
        }
    }

    /// All legal moves of the board: cell after cell in the order of the
    /// word, and for each cell to the north, west, east and south.
    pub open spec fn spec_legal_moves(self) -> Seq<Move> {
        self.moves_below(64)
    }

    /// The moves that can be taken back and landed on the cell with index `i`,
    /// in the first `d` directions.
    pub open spec fn inverse_moves_at(self, i: int, d: int) -> Seq<Move>
        decreases d,
    {
        if d <= 0 {
            Seq::empty()
        } else {
            self.inverse_moves_at(i, d - 1) + opt_seq(
                self.spec_legal_inverse_move(cell_of(i), Dir::spec_enumerate()[d - 1]),
            )
        }
    }

    /// The moves that can be taken back and landed on a cell with an index
    /// below `n`.
    pub open spec fn inverse_moves_below(self, n: int) -> Seq<Move>
        decreases n,
    {
        if n <= 0 {
            Seq::empty()
        } else {
            self.inverse_moves_below(n - 1) + self.inverse_moves_at(n - 1, 4)
        }
    }

    /// All moves that can be taken back on the board.
    pub open spec fn spec_legal_inverse_moves(self) -> Seq<Move> {
        self.inverse_moves_below(64)
    }

    /// A jump that the board can make is a legal move, and each legal move is
    /// such a jump.
    pub proof fn lemma_can_jump(self, p: (int, int), dir: Dir)
        ensures
            self.can_jump(p, dir) ==> self.legal(Move::jump(p, dir)) && at(Move::jump(p, dir).pos)
                == p && Move::jump(p, dir).along(dir),
            self.can_jump_back(p, dir) ==> self.legal_reverse(Move::jump_back(p, dir)) && at(
                Move::jump_back(p, dir).target,
            ) == p && Move::jump_back(p, dir).along(dir.opposite()),
    {
        if self.can_jump(p, dir) {
            let m = Move::jump(p, dir);
            assert(m.along(dir));
        }
        if self.can_jump_back(p, dir) {
            let m = Move::jump_back(p, dir);
            assert(m.along(dir.opposite()));
        }
    }

    /// A legal move is the jump from its first cell in its direction.
    pub proof fn lemma_legal_is_jump(self, m: Move, dir: Dir)
        requires
            m.along(dir),
        ensures
            self.legal(m) ==> self.can_jump(at(m.pos), dir) && m == Move::jump(at(m.pos), dir),
            self.legal_reverse(m) ==> self.can_jump_back(at(m.target), dir.opposite()) && m
                == Move::jump_back(at(m.target), dir.opposite()),
    {
    }

    /// The cells from which a jump in direction `dir` stays on the cross.
    pub proof fn lemma_movable_cells(dir: Dir)
        ensures
            forall|y: int, x: int| #[trigger]
                Board::spec_movable(dir).cell(y, x) == (in_cross(y, x) && in_cross(
                    y + 2 * dir.dy(),
                    x + 2 * dir.dx(),
                )),
            Board::spec_movable(dir).wf(),
    {
        let r = Board::spec_movable(dir);
        assert forall|y: int, x: int| #[trigger]
            r.cell(y, x) == (in_cross(y, x) && in_cross(y + 2 * dir.dy(), x + 2 * dir.dx())) by {
            if 0 <= y < 8 && 0 <= x < 8 {
                lemma_movable_bit((8 * y + x) as u64);
            }
        }
        r.lemma_wf_cells();
    }

    /// The cells from which a jump in direction `dir` stays on the cross,
    /// whatever the board holds.
    pub fn movable_positions(&self, dir: Dir) -> (r: Board)
        ensures
            r == Board::spec_movable(dir),
            forall|y: int, x: int| #[trigger]
                r.cell(y, x) == (in_cross(y, x) && in_cross(y + 2 * dir.dy(), x + 2 * dir.dx())),
            r.wf(),
    {
        proof {
            Board::lemma_movable_cells(dir);
        }
        match dir {
            Dir::North => Board(MOVABLE_NORTH),
            Dir::East => Board(MOVABLE_EAST),
            Dir::South => Board(MOVABLE_SOUTH),
            Dir::West => Board(MOVABLE_WEST),
        }
    }

    /// The board shifted so that each cell holds what the cell `n` steps
    /// further in direction `dir` held: `n` bits for east and west, `n` rows
    /// for north and south. What is shifted out of the word is lost, and
    /// zeros come in.
    pub fn shift(&self, dir: Dir, n: u32) -> (r: Board)
        ensures
            forall|i: int| 0 <= i < 64 ==> #[trigger] bit(r.0, i) == bit(self.0, i + n * dir.stride()),
    {
        let by: u32 = match dir {
            Dir::North | Dir::South => if n < 8 {
                8 * n
            } else {
                64
            },
            Dir::West | Dir::East => if n < 64 {
                n
            } else {
                64
            },
        };
        let ghost off: int = match dir {
            Dir::North => -8 * n,
            Dir::West => -1 * n,
            Dir::East => 1 * n,
            Dir::South => 8 * n,
        };
        proof {
            let s = dir.stride();
            assert(n * s == off) by (nonlinear_arith)
                requires
                    (s == -8 && off == -8 * n) || (s == -1 && off == -1 * n) || (s == 1 && off == 1
                        * n) || (s == 8 && off == 8 * n),
            ;
        }
        if by >= 64 {
            let r = Board(0);
            proof {
                assert forall|i: int| 0 <= i < 64 implies #[trigger] bit(r.0, i) == bit(
                    self.0,
                    i + n * dir.stride(),
                ) by {
                    lemma_bit_ops(0, 0, i as u64);
                    assert(n * dir.stride() == off);
                }
            }
            return r;
        }
        let r = match dir {
            Dir::North | Dir::West => Board(self.0 << by),
            Dir::South | Dir::East => Board(self.0 >> by),
        };
        proof {
            assert forall|i: int| 0 <= i < 64 implies #[trigger] bit(r.0, i) == bit(
                self.0,
                i + n * dir.stride(),
            ) by {
                lemma_bit_shift(self.0, by as u64, i as u64);
                assert(n * dir.stride() == off);
            }
        }
        r
    }

    /// The mask of the cells from which a legal move in direction `dir`
    /// starts.
    pub fn mov_pattern_mask(&self, dir: Dir) -> (r: Board)
        ensures
            forall|y: int, x: int| #[trigger] r.cell(y, x) == self.can_jump((y, x), dir),
            r@ == jump_origins(*self, dir),
            r@.len() == jumps_along(*self, dir).len(),
            r.wf(),
    {
        let m = self.movable_positions(dir);
        let s1 = self.shift(dir, 1);
        let s2 = self.shift(dir, 2);
        let r = Board(m.0 & self.0 & s1.0 & !s2.0);
        proof {
            assert forall|y: int, x: int| #[trigger] r.cell(y, x) == self.can_jump((y, x), dir) by {
                if 0 <= y < 8 && 0 <= x < 8 {
                    let i = (8 * y + x) as u64;
                    lemma_bit_ops(m.0 & self.0 & s1.0, !s2.0, i);
                    lemma_bit_ops(s2.0, 0, i);
                    lemma_bit_ops(m.0 & self.0, s1.0, i);
                    lemma_bit_ops(m.0, self.0, i);
                    assert(m.cell(y, x) == bit(m.0, i as int));
                    assert(bit(s1.0, i as int) == bit(self.0, i + 1 * dir.stride()));
                    assert(bit(s2.0, i as int) == bit(self.0, i + 2 * dir.stride()));
                }
            }
            assert(r@ =~= jump_origins(*self, dir));
            lemma_pattern_count(*self, dir);
            r.lemma_wf_cells();
        }
        r
    }

    /// The mask of the cells on which a move landed that came against
    /// direction `dir` and can be taken back.
    pub fn rev_mov_pattern_mask(&self, dir: Dir) -> (r: Board)
        ensures
            forall|y: int, x: int| #[trigger] r.cell(y, x) == self.can_jump_back((y, x), dir),
            r@ == Set::new(|p: (int, int)| self.can_jump_back(p, dir)),
            r.wf(),
    {
        let m = self.movable_positions(dir);
        let s1 = self.shift(dir, 1);
        let s2 = self.shift(dir, 2);
        let r = Board(m.0 & self.0 & !s1.0 & !s2.0);
        proof {
            assert forall|y: int, x: int| #[trigger]
                r.cell(y, x) == self.can_jump_back((y, x), dir) by {
                if 0 <= y < 8 && 0 <= x < 8 {
                    let i = (8 * y + x) as u64;
                    lemma_bit_ops(m.0 & self.0 & !s1.0, !s2.0, i);
                    lemma_bit_ops(s2.0, 0, i);
                    lemma_bit_ops(m.0 & self.0, !s1.0, i);
                    lemma_bit_ops(s1.0, 0, i);
                    lemma_bit_ops(m.0, self.0, i);
                    assert(m.cell(y, x) == bit(m.0, i as int));
                    assert(bit(s1.0, i as int) == bit(self.0, i + 1 * dir.stride()));
                    assert(bit(s2.0, i as int) == bit(self.0, i + 2 * dir.stride()));
                }
            }
            assert(r@ =~= Set::new(|p: (int, int)| self.can_jump_back(p, dir)));
            r.lemma_wf_cells();
        }
        r
    }

    /// Whether the three cells of a jump from the cell with index `idx` in
    /// direction `dir` hold a peg, a peg and none. Nothing is asked of where
    /// on the board the cells lie.
    pub fn movable_at_no_bounds_check(self, idx: usize, dir: Dir) -> (r: bool)
        requires
            dir.fits(idx as int),
        ensures
            r == (bit(self.0, idx as int) && bit(self.0, idx + dir.stride()) && !bit(
                self.0,
                idx + 2 * dir.stride(),
            )),
    {
        match dir {
            Dir::East => {
                proof {
                    lemma_row_tests(self.0, idx as u64);
                }
                self.0 & (7u64 << idx) == (3u64 << idx)
            },
            Dir::West => {
                proof {
                    lemma_row_tests(self.0, (idx - 2) as u64);
                }
                self.0 & (7u64 << (idx - 2)) == (6u64 << (idx - 2))
            },
            Dir::South => {
                proof {
                    lemma_column_tests(self.0, idx as u64);
                }
                self.0 & (0x01_0101u64 << idx) == (0x00_0101u64 << idx)
            },
            Dir::North => {
                proof {
                    lemma_column_tests(self.0, (idx - 16) as u64);
                }
                self.0 & (0x01_0101u64 << (idx - 16)) == (0x01_0100u64 << (idx - 16))
            },
        }
    }

    /// Whether the three cells of a jump from the cell with index `idx` in
    /// direction `dir` hold a peg, none and none.
    pub fn reverse_movable_at_no_bounds_check(self, idx: usize, dir: Dir) -> (r: bool)
        requires
            dir.fits(idx as int),
        ensures
            r == (bit(self.0, idx as int) && !bit(self.0, idx + dir.stride()) && !bit(
                self.0,
                idx + 2 * dir.stride(),
            )),
    {
        match dir {
            Dir::East => {
                proof {
                    lemma_row_tests(self.0, idx as u64);
                }
                self.0 & (7u64 << idx) == (1u64 << idx)
            },
            Dir::West => {
                proof {
                    lemma_row_tests(self.0, (idx - 2) as u64);
                }
                self.0 & (7u64 << (idx - 2)) == (4u64 << (idx - 2))
            },
            Dir::South => {
                proof {
                    lemma_column_tests(self.0, idx as u64);
                }
                self.0 & (0x01_0101u64 << idx) == (0x00_0001u64 << idx)
            },
            Dir::North => {
                proof {
                    lemma_column_tests(self.0, (idx - 16) as u64);
                }
                self.0 & (0x01_0101u64 << (idx - 16)) == (0x01_0000u64 << (idx - 16))
            },
        }
    }

    /// The board with the three cells of a jump from the cell with index
    /// `idx` in direction `dir` toggled. This plays the jump where it is
    /// legal, and takes it back where it can be taken back.
    pub fn toggle_mov_idx_unchecked(self, idx: usize, dir: Dir) -> (r: Board)
        requires
            dir.fits(idx as int),
        ensures
            forall|i: int|
                0 <= i < 64 ==> #[trigger] bit(r.0, i) == (bit(self.0, i) != (i == idx || i == idx
                    + dir.stride() || i == idx + 2 * dir.stride())),
            self.can_jump(at(cell_of(idx as int)), dir) ==> r@ == self.cells_after(
                Move::jump(at(cell_of(idx as int)), dir),
            ),
            self.can_jump_back(at(cell_of(idx as int)), dir) ==> r@ == self.cells_before(
                Move::jump_back(at(cell_of(idx as int)), dir),
            ),
            self.wf() && (self.can_jump(at(cell_of(idx as int)), dir) || self.can_jump_back(
                at(cell_of(idx as int)),
                dir,
            )) ==> r.wf(),
    {
        let r = match dir {
            Dir::East => Board(self.0 ^ (7u64 << idx)),
            Dir::West => Board(self.0 ^ (7u64 << (idx - 2))),
            Dir::North => Board(self.0 ^ (0x01_0101u64 << (idx - 16))),
            Dir::South => Board(self.0 ^ (0x01_0101u64 << idx)),
        };
        proof {
            let low = dir.low_end(idx as int);
            assert forall|i: int| 0 <= i < 64 implies #[trigger] bit(r.0, i) == (bit(self.0, i) != (
            i == idx || i == idx + dir.stride() || i == idx + 2 * dir.stride())) by {
                lemma_toggle_bit(self.0, low as u64, i as u64);
            }
            let p = at(cell_of(idx as int));
            if self.can_jump(p, dir) {
                let m = Move::jump(p, dir);
                assert forall|q: (int, int)| r@.contains(q) == self.cells_after(m).contains(q) by {
                    if 0 <= q.0 < 8 && 0 <= q.1 < 8 {
                        assert(r.cell(q.0, q.1) == bit(r.0, 8 * q.0 + q.1));
                    }
                }
                assert(r@ =~= self.cells_after(m));
            }
            if self.can_jump_back(p, dir) {
                let m = Move::jump_back(p, dir);
                assert forall|q: (int, int)| r@.contains(q) == self.cells_before(m).contains(q) by {
                    if 0 <= q.0 < 8 && 0 <= q.1 < 8 {
                        assert(r.cell(q.0, q.1) == bit(r.0, 8 * q.0 + q.1));
                    }
                }
                assert(r@ =~= self.cells_before(m));
            }
            if self.wf() && (self.can_jump(p, dir) || self.can_jump_back(p, dir)) {
                self.lemma_wf_cells();
                assert forall|y: int, x: int| #[trigger] r.cell(y, x) implies in_cross(y, x) by {
                    assert(r@.contains((y, x)));
                    if !self.cell(y, x) {
                        assert(!self@.contains((y, x)));
                    }
                }
                r.lemma_wf_cells();
            }
        }
        r
    }

    /// The legal move from `pos` in direction `dir`, if there is one: the
    /// peg at `pos` jumps over its neighbour into the empty cell behind it.
    pub fn get_legal_move(&self, pos: (Idx, Idx), dir: Dir) -> (r: Option<Move>)
        ensures
            r == self.spec_legal_move(pos, dir),
            r matches Some(m) ==> self.legal(m) && m.pos == pos && m.along(dir),
            r is None ==> forall|m: Move| m.pos == pos && m.along(dir) ==> !self.legal(m),
    {
        proof {
            self.lemma_can_jump(at(pos), dir);
            assert forall|m: Move| m.pos == pos && m.along(dir) && self.legal(
                m,
            ) implies self.can_jump(at(pos), dir) by {
                self.lemma_legal_is_jump(m, dir);
            }
        }
        if !Board::inbounds(pos) || !self.occupied(pos) {
            return None;
        }
        let (skip, target) = dir.mov(pos);
        if Board::inbounds(target) && self.occupied(skip) && !self.occupied(target) {
            Some(Move { pos, skip, target })
        } else {
            None
        }
    }

    /// The move that landed on `target`, coming against direction `dir`, if
    /// it can be taken back: `target` holds a peg and the two cells behind it
    /// in direction `dir` are empty cells of the cross.
    pub fn get_legal_inverse_move(&self, target: (Idx, Idx), dir: Dir) -> (r: Option<Move>)
        ensures
            r == self.spec_legal_inverse_move(target, dir),
            r matches Some(m) ==> self.legal_reverse(m) && m.target == target && m.along(
                dir.opposite(),
            ),
            r is None ==> forall|m: Move|
                m.target == target && m.along(dir.opposite()) ==> !self.legal_reverse(m),
    {
        proof {
            self.lemma_can_jump(at(target), dir);
            assert forall|m: Move|
                m.target == target && m.along(dir.opposite()) && self.legal_reverse(
                    m,
                ) implies self.can_jump_back(at(target), dir) by {
                self.lemma_legal_is_jump(m, dir.opposite());
            }
        }
        if !Board::inbounds(target) || !self.occupied(target) {
            return None;
        }
        let (skip, pos) = dir.mov(target);
        if Board::inbounds(pos) && !self.occupied(skip) && !self.occupied(pos) {
            Some(Move { pos, skip, target })
        } else {
            None
        }
    }

    /// An empty cell is where no move starts and where none landed.
    proof fn lemma_moves_at_empty(self, i: int, d: int)
        requires
            0 <= i < 64,
            !bit(self.0, i),
            0 <= d <= 4,
        ensures
            self.moves_at(i, d) == Seq::<Move>::empty(),
            self.inverse_moves_at(i, d) == Seq::<Move>::empty(),
        decreases d,
    {
        if d > 0 {
            self.lemma_moves_at_empty(i, d - 1);
            assert(!self.cell(i / 8, i % 8));
            assert(self.moves_at(i, d) =~= Seq::<Move>::empty());
            assert(self.inverse_moves_at(i, d) =~= Seq::<Move>::empty());
        }
    }

    /// Empty cells add nothing to the lists of moves.
    proof fn lemma_moves_below_skip(self, lo: int, hi: int)
        requires
            0 <= lo <= hi <= 64,
            forall|i: int| lo <= i < hi ==> !bit(self.0, i),
        ensures
            self.moves_below(hi) == self.moves_below(lo),
            self.inverse_moves_below(hi) == self.inverse_moves_below(lo),
        decreases hi - lo,
    {
        if lo < hi {
            self.lemma_moves_below_skip(lo, hi - 1);
            self.lemma_moves_at_empty(hi - 1, 4);
            assert(self.moves_below(hi) =~= self.moves_below(lo));
            assert(self.inverse_moves_below(hi) =~= self.inverse_moves_below(lo));
        }
    }

    /// All legal moves of the board, by the cell they start from in the order
    /// of the word, and for each cell to the north, west, east and south.
    pub fn get_legal_moves(&self) -> (r: Vec<Move>)
        ensures
            r@ == self.spec_legal_moves(),
            forall|m: Move| r@.contains(m) <==> self.legal(m),
            r@.no_duplicates(),
    {
        let mut legal_moves: Vec<Move> = Vec::new();
        let mut copy = self.0;
        let dirs = Dir::enumerate();
        let ghost mut done: int = 0;
        while copy != 0
            invariant
                0 <= done <= 64,
                dirs@ == Dir::spec_enumerate(),
                forall|i: int| 0 <= i < 64 ==> bit(copy, i) == (bit(self.0, i) && i >= done),
                legal_moves@ == self.moves_below(done),
            decreases 64 - done,
        {
            let idx = copy.trailing_zeros();
            proof {
                lemma_lowest_bit(copy);
                assert(bit(copy, idx as int));
                assert forall|i: int| done <= i < idx implies !bit(self.0, i) by {
                    assert(!bit(copy, i));
                }
                self.lemma_moves_below_skip(done, idx as int);
            }
            let y = idx as i64 / Board::REPR;
            let x = idx as i64 % Board::REPR;
            let ghost before = copy;
            copy = copy & !(1u64 << idx);
            proof {
                assert forall|i: int| 0 <= i < 64 implies bit(copy, i) == (bit(self.0, i) && i
                    >= idx + 1) by {
                    lemma_bit_ops(before, !(1u64 << idx), i as u64);
                    lemma_bit_ops(1u64 << idx, 0, i as u64);
                    lemma_bit_single(idx as u64, i as u64);
                }
            }
            let mut d: usize = 0;
            while d < 4
                invariant
                    0 <= d <= 4,
                    0 <= idx < 64,
                    dirs@ == Dir::spec_enumerate(),
                    (y, x) == cell_of(idx as int),
                    legal_moves@ == self.moves_below(idx as int) + self.moves_at(idx as int, d as int),
                decreases 4 - d,
            {
                let dir = dirs[d];
                let found = self.get_legal_move((y, x), dir);
                if let Some(mov) = found {
                    legal_moves.push(mov);
                }
                d = d + 1;
                proof {
                    assert(legal_moves@ =~= self.moves_below(idx as int) + self.moves_at(
                        idx as int,
                        d as int,
                    ));
                }
            }
            proof {
                done = idx + 1;
            }
        }
        proof {
            assert forall|i: int| done <= i < 64 implies !bit(self.0, i) by {
                lemma_bit_ops(0, 0, i as u64);
            }
            self.lemma_moves_below_skip(done, 64);
            self.lemma_legal_moves_complete();
            self.lemma_legal_moves_distinct();
        }
        legal_moves
    }

    /// All moves that can be taken back on the board, by the cell they landed
    /// on in the order of the word, and for each cell by the direction, north,
    /// west, east and south, in which the jumped-over cell lies from it.
    pub fn get_legal_inverse_moves(&self) -> (r: Vec<Move>)
        ensures
            r@ == self.spec_legal_inverse_moves(),
            forall|m: Move| r@.contains(m) <==> self.legal_reverse(m),
            r@.no_duplicates(),
    {
        let mut legal_moves: Vec<Move> = Vec::new();
        let mut copy = self.0;
        let dirs = Dir::enumerate();
        let ghost mut done: int = 0;
        while copy != 0
            invariant
                0 <= done <= 64,
                dirs@ == Dir::spec_enumerate(),
                forall|i: int| 0 <= i < 64 ==> bit(copy, i) == (bit(self.0, i) && i >= done),
                legal_moves@ == self.inverse_moves_below(done),
            decreases 64 - done,
        {
            let idx = copy.trailing_zeros();
            proof {
                lemma_lowest_bit(copy);
                assert(bit(copy, idx as int));
                assert forall|i: int| done <= i < idx implies !bit(self.0, i) by {
                    assert(!bit(copy, i));
                }
                self.lemma_moves_below_skip(done, idx as int);
            }
            let y = idx as i64 / Board::REPR;
            let x = idx as i64 % Board::REPR;
            let ghost before = copy;
            copy = copy & !(1u64 << idx);
            proof {
                assert forall|i: int| 0 <= i < 64 implies bit(copy, i) == (bit(self.0, i) && i
                    >= idx + 1) by {
                    lemma_bit_ops(before, !(1u64 << idx), i as u64);
                    lemma_bit_ops(1u64 << idx, 0, i as u64);
                    lemma_bit_single(idx as u64, i as u64);
                }
            }
            let mut d: usize = 0;
            while d < 4
                invariant
                    0 <= d <= 4,
                    0 <= idx < 64,
                    dirs@ == Dir::spec_enumerate(),
                    (y, x) == cell_of(idx as int),
                    legal_moves@ == self.inverse_moves_below(idx as int) + self.inverse_moves_at(
                        idx as int,
                        d as int,
                    ),
                decreases 4 - d,
            {
                let dir = dirs[d];
                let found = self.get_legal_inverse_move((y, x), dir);
                if let Some(mov) = found {
                    legal_moves.push(mov);
                }
                d = d + 1;
                proof {
                    assert(legal_moves@ =~= self.inverse_moves_below(idx as int)
                        + self.inverse_moves_at(idx as int, d as int));
                }
            }
            proof {
                done = idx + 1;
            }
        }
        proof {
            assert forall|i: int| done <= i < 64 implies !bit(self.0, i) by {
                lemma_bit_ops(0, 0, i as u64);
            }
            self.lemma_moves_below_skip(done, 64);
            self.lemma_legal_inverse_moves_complete();
            self.lemma_legal_moves_distinct();
        }
        legal_moves
    }

    /// What the list of the first `d` directions at one cell holds.
    proof fn lemma_moves_at_contains(self, i: int, d: int, m: Move)
        requires
            0 <= d <= 4,
        ensures
            self.moves_at(i, d).contains(m) <==> exists|e: int|
                0 <= e < d && self.spec_legal_move(cell_of(i), #[trigger] Dir::spec_enumerate()[e])
                    == Some(m),
            self.inverse_moves_at(i, d).contains(m) <==> exists|e: int|
                0 <= e < d && self.spec_legal_inverse_move(
                    cell_of(i),
                    #[trigger] Dir::spec_enumerate()[e],
                ) == Some(m),
        decreases d,
    {
        if d > 0 {
            self.lemma_moves_at_contains(i, d - 1, m);
            let last = opt_seq(self.spec_legal_move(cell_of(i), Dir::spec_enumerate()[d - 1]));
            lemma_concat_contains(self.moves_at(i, d - 1), last, m);
            let ilast = opt_seq(
                self.spec_legal_inverse_move(cell_of(i), Dir::spec_enumerate()[d - 1]),
            );
            lemma_concat_contains(self.inverse_moves_at(i, d - 1), ilast, m);
            if last.contains(m) {
                assert(last[0] == m);
            }
            if ilast.contains(m) {
                assert(ilast[0] == m);
            }
            if self.spec_legal_move(cell_of(i), Dir::spec_enumerate()[d - 1]) == Some(m) {
                assert(last[0] == m);
            }
            if self.spec_legal_inverse_move(cell_of(i), Dir::spec_enumerate()[d - 1]) == Some(m) {
                assert(ilast[0] == m);
            }
        }
    }

    /// What the list of the moves of the first `n` cells holds.
    proof fn lemma_moves_below_contains(self, n: int, m: Move)
        requires
            0 <= n <= 64,
        ensures
            self.moves_below(n).contains(m) <==> exists|i: int|
                0 <= i < n && #[trigger] self.moves_at(i, 4).contains(m),
            self.inverse_moves_below(n).contains(m) <==> exists|i: int|
                0 <= i < n && #[trigger] self.inverse_moves_at(i, 4).contains(m),
        decreases n,
    {
        if n > 0 {
            self.lemma_moves_below_contains(n - 1, m);
            lemma_concat_contains(self.moves_below(n - 1), self.moves_at(n - 1, 4), m);
            lemma_concat_contains(
                self.inverse_moves_below(n - 1),
                self.inverse_moves_at(n - 1, 4),
                m,
            );
        }
    }

    /// The moves of one cell differ from each other: each goes in a direction
    /// of its own.
    proof fn lemma_moves_at_distinct(self, i: int, d: int)
        requires
            0 <= i < 64,
            0 <= d <= 4,
        ensures
            self.moves_at(i, d).no_duplicates(),
            self.inverse_moves_at(i, d).no_duplicates(),
        decreases d,
    {
        if d > 0 {
            self.lemma_moves_at_distinct(i, d - 1);
            let dir = Dir::spec_enumerate()[d - 1];
            let first = self.moves_at(i, d - 1);
            let ifirst = self.inverse_moves_at(i, d - 1);
            let last = opt_seq(self.spec_legal_move(cell_of(i), dir));
            let ilast = opt_seq(self.spec_legal_inverse_move(cell_of(i), dir));
            assert forall|a: int, b: int|
                0 <= a < first.len() && 0 <= b < last.len() implies first[a] != last[b] by {
                let m = first[a];
                assert(first.contains(m));
                self.lemma_moves_at_contains(i, d - 1, m);
                let e = choose|e: int|
                    0 <= e < d - 1 && self.spec_legal_move(
                        cell_of(i),
                        #[trigger] Dir::spec_enumerate()[e],
                    ) == Some(m);
                assert(m.skip != last[0].skip);
            }
            assert forall|a: int, b: int|
                0 <= a < ifirst.len() && 0 <= b < ilast.len() implies ifirst[a] != ilast[b] by {
                let m = ifirst[a];
                assert(ifirst.contains(m));
                self.lemma_moves_at_contains(i, d - 1, m);
                let e = choose|e: int|
                    0 <= e < d - 1 && self.spec_legal_inverse_move(
                        cell_of(i),
                        #[trigger] Dir::spec_enumerate()[e],
                    ) == Some(m);
                assert(m.skip != ilast[0].skip);
            }
            vstd::seq_lib::lemma_no_dup_in_concat(first, last);
            vstd::seq_lib::lemma_no_dup_in_concat(ifirst, ilast);
        }
    }

    /// The moves of the first `n` cells differ from each other.
    proof fn lemma_moves_below_distinct(self, n: int)
        requires
            0 <= n <= 64,
        ensures
            self.moves_below(n).no_duplicates(),
            self.inverse_moves_below(n).no_duplicates(),
        decreases n,
    {
        if n > 0 {
            self.lemma_moves_below_distinct(n - 1);
            self.lemma_moves_at_distinct(n - 1, 4);
            let below = self.moves_below(n - 1);
            let ibelow = self.inverse_moves_below(n - 1);
            let here = self.moves_at(n - 1, 4);
            let ihere = self.inverse_moves_at(n - 1, 4);
            assert forall|a: int, b: int|
                0 <= a < below.len() && 0 <= b < here.len() implies below[a] != here[b] by {
                let m = below[a];
                assert(below.contains(m));
                self.lemma_moves_below_contains(n - 1, m);
                let i = choose|i: int| 0 <= i < n - 1 && #[trigger] self.moves_at(i, 4).contains(m);
                self.lemma_moves_at_contains(i, 4, m);
                assert(here.contains(here[b]));
                self.lemma_moves_at_contains(n - 1, 4, here[b]);
                assert(m.pos == cell_of(i));
                assert(here[b].pos == cell_of(n - 1));
            }
            assert forall|a: int, b: int|
                0 <= a < ibelow.len() && 0 <= b < ihere.len() implies ibelow[a] != ihere[b] by {
                let m = ibelow[a];
                assert(ibelow.contains(m));
                self.lemma_moves_below_contains(n - 1, m);
                let i = choose|i: int|
                    0 <= i < n - 1 && #[trigger] self.inverse_moves_at(i, 4).contains(m);
                self.lemma_moves_at_contains(i, 4, m);
                assert(ihere.contains(ihere[b]));
                self.lemma_moves_at_contains(n - 1, 4, ihere[b]);
                assert(m.target == cell_of(i));
                assert(ihere[b].target == cell_of(n - 1));
            }
            vstd::seq_lib::lemma_no_dup_in_concat(below, here);
            vstd::seq_lib::lemma_no_dup_in_concat(ibelow, ihere);
        }
    }

    /// The lists of the legal moves and of the moves to take back hold each
    /// move once.
    pub proof fn lemma_legal_moves_distinct(self)
        ensures
            self.spec_legal_moves().no_duplicates(),
            self.spec_legal_inverse_moves().no_duplicates(),
    {
        self.lemma_moves_below_distinct(64);
    }

    /// The list of legal moves holds each legal move, and nothing else.
    pub proof fn lemma_legal_moves_complete(self)
        ensures
            forall|m: Move| self.spec_legal_moves().contains(m) <==> self.legal(m),
    {
        assert forall|m: Move| self.spec_legal_moves().contains(m) <==> self.legal(m) by {
            self.lemma_moves_below_contains(64, m);
            if self.spec_legal_moves().contains(m) {
                let i = choose|i: int| 0 <= i < 64 && #[trigger] self.moves_at(i, 4).contains(m);
                self.lemma_moves_at_contains(i, 4, m);
                let e = choose|e: int|
                    0 <= e < 4 && self.spec_legal_move(
                        cell_of(i),
                        #[trigger] Dir::spec_enumerate()[e],
                    ) == Some(m);
                self.lemma_can_jump(at(cell_of(i)), Dir::spec_enumerate()[e]);
            }
            if self.legal(m) {
                let dir = choose|dir: Dir| m.along(dir);
                self.lemma_legal_is_jump(m, dir);
                let i = 8 * m.pos.0 + m.pos.1;
                let e = dir.number();
                assert(Dir::spec_enumerate()[e] == dir);
                assert(cell_of(i) == m.pos);
                self.lemma_moves_at_contains(i, 4, m);
                assert(self.moves_at(i, 4).contains(m));
            }
        }
    }

    /// The list of moves to take back holds each of them, and nothing else.
    pub proof fn lemma_legal_inverse_moves_complete(self)
        ensures
            forall|m: Move| self.spec_legal_inverse_moves().contains(m) <==> self.legal_reverse(m),
    {
        assert forall|m: Move|
            self.spec_legal_inverse_moves().contains(m) <==> self.legal_reverse(m) by {
            self.lemma_moves_below_contains(64, m);
            if self.spec_legal_inverse_moves().contains(m) {
                let i = choose|i: int|
                    0 <= i < 64 && #[trigger] self.inverse_moves_at(i, 4).contains(m);
                self.lemma_moves_at_contains(i, 4, m);
                let e = choose|e: int|
                    0 <= e < 4 && self.spec_legal_inverse_move(
                        cell_of(i),
                        #[trigger] Dir::spec_enumerate()[e],
                    ) == Some(m);
                self.lemma_can_jump(at(cell_of(i)), Dir::spec_enumerate()[e]);
            }
            if self.legal_reverse(m) {
                let dir = choose|dir: Dir| m.along(dir);
                self.lemma_legal_is_jump(m, dir);
                let i = 8 * m.target.0 + m.target.1;
                let e = dir.opposite().number();
                assert(Dir::spec_enumerate()[e] == dir.opposite());
                assert(cell_of(i) == m.target);
                self.lemma_moves_at_contains(i, 4, m);
                assert(self.inverse_moves_at(i, 4).contains(m));
            }
        }
    }

    /// Whether `m` is a legal move on the board.
    pub fn can_play(&self, m: Move) -> (r: bool)
        ensures
            r == self.legal(m),
    {
        if !Board::inbounds(m.pos) || !Board::inbounds(m.skip) || !Board::inbounds(m.target) {
            return false;
        }
        let dy = m.skip.0 - m.pos.0;
        let dx = m.skip.1 - m.pos.1;
        let straight = (dy == 0 && (dx == 1 || dx == -1)) || (dx == 0 && (dy == 1 || dy == -1));
        let jump = straight && m.target.0 - m.skip.0 == dy && m.target.1 - m.skip.1 == dx;
        proof {
            if jump {
                let dir = if dy == -1 {
                    Dir::North
                } else if dy == 1 {
                    Dir::South
                } else if dx == -1 {
                    Dir::West
                } else {
                    Dir::East
                };
                assert(m.along(dir));
            }
            if m.is_jump() {
                assert(jump);
            }
        }
        jump && self.occupied(m.pos) && self.occupied(m.skip) && !self.occupied(m.target)
    }

    /// Whether `m` is a legal move to take back on the board.
    pub fn can_take_back(&self, m: Move) -> (r: bool)
        ensures
            r == self.legal_reverse(m),
    {
        if !Board::inbounds(m.pos) || !Board::inbounds(m.skip) || !Board::inbounds(m.target) {
            return false;
        }
        let dy = m.skip.0 - m.pos.0;
        let dx = m.skip.1 - m.pos.1;
        let straight = (dy == 0 && (dx == 1 || dx == -1)) || (dx == 0 && (dy == 1 || dy == -1));
        let jump = straight && m.target.0 - m.skip.0 == dy && m.target.1 - m.skip.1 == dx;
        proof {
            if jump {
                let dir = if dy == -1 {
                    Dir::North
                } else if dy == 1 {
                    Dir::South
                } else if dx == -1 {
                    Dir::West
                } else {
                    Dir::East
                };
                assert(m.along(dir));
            }
            if m.is_jump() {
                assert(jump);
            }
        }
        jump && !self.occupied(m.pos) && !self.occupied(m.skip) && self.occupied(m.target)
    }

    /// The legal move that a drag from `pos` to `dst` asks for, if there is
    /// one: the direction is north where `dst` lies two rows up in the same
    /// column, south where it lies two rows down, west where it lies two
    /// columns to the left in the same row, east where it lies two to the
    /// right.
    pub open spec fn spec_drag(self, pos: (Idx, Idx), dst: (Idx, Idx)) -> Option<Move> {
        if dst.1 == pos.1 && dst.0 == pos.0 - 2 {
            self.spec_legal_move(pos, Dir::North)
        } else if dst.1 == pos.1 && dst.0 == pos.0 + 2 {
            self.spec_legal_move(pos, Dir::South)
        } else if dst.0 == pos.0 && dst.1 == pos.1 - 2 {
            self.spec_legal_move(pos, Dir::West)
        } else if dst.0 == pos.0 && dst.1 == pos.1 + 2 {
            self.spec_legal_move(pos, Dir::East)
        } else {
            None
        }
    }

    /// The move that a drag of the peg at `pos` to `dst` asks for, if it is
    /// legal: `dst` must lie two cells from `pos` in a row or a column.
    pub fn is_legal_move(&self, pos: (Idx, Idx), dst: (Idx, Idx)) -> (r: Option<Move>)
        ensures
            r == self.spec_drag(pos, dst),
            r matches Some(m) ==> self.legal(m) && m.pos == pos && m.target == dst,
            r is None ==> forall|m: Move| m.pos == pos && m.target == dst ==> !self.legal(m),
    {
        proof {
            assert forall|m: Move| m.pos == pos && m.target == dst && self.legal(m) implies ({
                let dir = choose|dir: Dir| m.along(dir);
                &&& m.along(dir)
                &&& dst.0 == pos.0 + 2 * dir.dy()
                &&& dst.1 == pos.1 + 2 * dir.dx()
                &&& in_cross(pos.0 as int, pos.1 as int)
            }) by {}
        }
        if !Board::inbounds(pos) {
            return None;
        }
        let dir = if dst.1 == pos.1 && dst.0 == pos.0 - 2 {
            Dir::North
        } else if dst.1 == pos.1 && dst.0 == pos.0 + 2 {
            Dir::South
        } else if dst.0 == pos.0 && dst.1 == pos.1 - 2 {
            Dir::West
        } else if dst.0 == pos.0 && dst.1 == pos.1 + 2 {
            Dir::East
        } else {
            return None;
        };
        let r = self.get_legal_move(pos, dir);
        proof {
            if r is None {
                assert forall|m: Move| m.pos == pos && m.target == dst implies !self.legal(m) by {
                    if self.legal(m) {
                        let e = choose|e: Dir| m.along(e);
                        assert(e == dir);
                    }
                }
            }
        }
        r
    }
}

/// What a list made of two holds.
pub proof fn lemma_concat_contains<T>(a: Seq<T>, b: Seq<T>, x: T)
    ensures
        (a + b).contains(x) <==> a.contains(x) || b.contains(x),
{
    if a.contains(x) {
        let i = choose|i: int| 0 <= i < a.len() && a[i] == x;
        assert((a + b)[i] == x);
    }
    if b.contains(x) {
        let i = choose|i: int| 0 <= i < b.len() && b[i] == x;
        assert((a + b)[a.len() + i] == x);
    }
    if (a + b).contains(x) {
        let i = choose|i: int| 0 <= i < (a + b).len() && (a + b)[i] == x;
        if i < a.len() {
            assert(a[i] == x);
        } else {
            assert(b[i - a.len()] == x);
        }
    }
}

/// The legal moves of a board in direction `dir`.
pub open spec fn jumps_along(b: Board, dir: Dir) -> Set<Move> {
    Set::new(|m: Move| b.legal(m) && m.along(dir))
}

/// The cells from which a legal move in direction `dir` starts.
pub open spec fn jump_origins(b: Board, dir: Dir) -> Set<(int, int)> {
    Set::new(|p: (int, int)| b.can_jump(p, dir))
}

/// There are as many cells from which a legal move in direction `dir` starts
/// as there are legal moves in that direction: `mov_pattern_mask` holds one
/// peg for each such move.
pub proof fn lemma_pattern_count(b: Board, dir: Dir)
    ensures
        jump_origins(b, dir).finite(),
        jumps_along(b, dir).finite(),
        jump_origins(b, dir).len() == jumps_along(b, dir).len(),
{
    let origins = jump_origins(b, dir);
    let jumps = jumps_along(b, dir);
    let f = |p: (int, int)| Move::jump(p, dir);
    assert(origins.subset_of(crate::board::cross()));
    Board::lemma_peg_counts();
    vstd::set_lib::lemma_len_subset(origins, crate::board::cross());
    assert(origins.map(f) =~= jumps) by {
        assert forall|m: Move| jumps.contains(m) implies origins.map(f).contains(m) by {
            b.lemma_legal_is_jump(m, dir);
            assert(origins.contains(at(m.pos)) && f(at(m.pos)) == m);
        }
        assert forall|m: Move| origins.map(f).contains(m) implies jumps.contains(m) by {
            let p = choose|p: (int, int)| origins.contains(p) && f(p) == m;
            b.lemma_can_jump(p, dir);
        }
    }
    assert(vstd::relations::injective_on(f, origins)) by {
        assert forall|p: (int, int), q: (int, int)|
            origins.contains(p) && origins.contains(q) && f(p) == f(q) implies p == q by {
            b.lemma_can_jump(p, dir);
            b.lemma_can_jump(q, dir);
        }
    }
    vstd::set_lib::lemma_map_size(origins, jumps, f);
}

/// Taking back a move that the board admitted gives the board back.
pub proof fn lemma_reverse_undoes_move(b: Board, m: Move)
    requires
        b.admits(m),
    ensures
        b.spec_mov(m).admits_reverse(m),
        b.spec_mov(m).spec_reverse_mov(m) == b,
{
    let x = b.spec_mov(m);
    b.lemma_mov_cells(m);
    assert(x.cell(m.pos.0 as int, m.pos.1 as int) == x@.contains(at(m.pos)));
    assert(x.cell(m.skip.0 as int, m.skip.1 as int) == x@.contains(at(m.skip)));
    assert(x.cell(m.target.0 as int, m.target.1 as int) == x@.contains(at(m.target)));
    assert(b.cell(m.pos.0 as int, m.pos.1 as int) == b@.contains(at(m.pos)));
    assert(b.cell(m.skip.0 as int, m.skip.1 as int) == b@.contains(at(m.skip)));
    assert(b.cell(m.target.0 as int, m.target.1 as int) == b@.contains(at(m.target)));
    assert(at(m.pos) != at(m.skip));
    assert(at(m.target) != at(m.pos) && at(m.target) != at(m.skip));
    assert(x.admits_reverse(m));
    x.lemma_mov_cells(m);
    let y = x.spec_reverse_mov(m);
    assert(y@ =~= b@);
    y.lemma_view_ext(b);
}

/// A move on a canonical board, taken back and put into canonical form, gives
/// the board.
pub proof fn lemma_step_and_back(b: Board, m: Move)
    requires
        b.canonical(),
        b.admits(m),
    ensures
        b.spec_mov(m).spec_reverse_mov(m).spec_normalize() == b,
{
    lemma_reverse_undoes_move(b, m);
}

} // verus!
