//! The board: 33 holes in the shape of a cross, packed into one 64-bit word.
//!
//! The word is read as a grid of 8 rows of 8 bits. Cell `(y, x)` is bit
//! `8 * y + x`. The cross lies in the upper left 7 by 7 cells.

use crate::bits::{
    bit, count_set_bits, lemma_bit_ops, lemma_bit_single, lemma_bits_equal, lemma_lowest_bit,
    lemma_ones_finite, ones,
};
use crate::dir::Idx;
use crate::mov::Move;
use vstd::prelude::*;
use vstd::std_specs::bits::u64_trailing_zeros;

verus! {

/// The word with exactly the 33 cells of the cross set.
pub const FULL_MASK: u64 = 0x001c_1c7f_7f7f_1c1c;

/// The word with only the centre cell `(3, 3)` set.
pub const CENTER_MASK: u64 = 0x0800_0000;

/// The five cells of which a solvable board holds at least one:
/// `(1, 3)`, `(3, 1)`, `(3, 3)`, `(3, 5)` and `(5, 3)`.
pub const PIVOT_MASK: u64 = 0x0000_0800_2a00_0800;

/// `(y, x)` is one of the 33 cells of the cross: rows 2 to 4 in full, and
/// columns 2 to 4 of the other rows.
pub open spec fn in_cross(y: int, x: int) -> bool {
    0 <= y < 7 && 0 <= x < 7 && (2 <= y <= 4 || 2 <= x <= 4)
}

/// The cells of the cross.
pub open spec fn cross() -> Set<(int, int)> {
    Set::new(|p: (int, int)| in_cross(p.0, p.1))
}

/// A position of executable code as a pair of mathematical integers.
pub open spec fn at(pos: (Idx, Idx)) -> (int, int) {
    (pos.0 as int, pos.1 as int)
}

/// The word with only the bit of the cell `pos` set.
pub open spec fn cell_mask(pos: (Idx, Idx)) -> u64 {
    1u64 << ((8 * pos.0 + pos.1) as u64)
}

/// A state of the board. Its view is the set of the occupied cells.
#[derive(Debug, Clone, Copy, PartialEq, Eq, Structural, PartialOrd, Ord, Hash)]
pub struct Board(pub u64);

impl View for Board {
    type V = Set<(int, int)>;

    open spec fn view(&self) -> Set<(int, int)> {
        Set::new(|p: (int, int)| self.cell(p.0, p.1))
    }
}

pub proof fn lemma_full_bit(i: u64)
    by (bit_vector)
    requires
        i < 64,
    ensures
        bit(FULL_MASK, i as int) == (i / 8 < 7 && i % 8 < 7 && (2 <= i / 8 <= 4 || 2 <= i % 8 <= 4)),
{
}

proof fn lemma_within(a: u64, i: u64)
    by (bit_vector)
    requires
        i < 64,
        a & !FULL_MASK == 0,
        bit(a, i as int),
    ensures
        bit(FULL_MASK, i as int),
{
}

proof fn lemma_outside(a: u64) -> (i: u64)
    requires
        a & !FULL_MASK != 0,
    ensures
        i < 64,
        bit(a, i as int),
        !bit(FULL_MASK, i as int),
{
    let x = a & !FULL_MASK;
    lemma_lowest_bit(x);
    let t = u64_trailing_zeros(x) as u64;
    lemma_bit_ops(a, !FULL_MASK, t);
    lemma_bit_ops(FULL_MASK, 0, t);
    t
}

proof fn lemma_test_bit(a: u64, k: u64)
    by (bit_vector)
    requires
        k < 64,
    ensures
        ((a & (1u64 << k)) != 0) == bit(a, k as int),
{
}

proof fn lemma_pivot(a: u64)
    by (bit_vector)
    ensures
        ((a & PIVOT_MASK) != 0) == (bit(a, 11) || bit(a, 25) || bit(a, 27) || bit(a, 29) || bit(
            a,
            43,
        )),
{
}

impl Board {
    /// The number of holes.
    pub const SLOTS: usize = 33;

    /// The number of rows, and of columns, that the cross spans.
    pub const SIZE: Idx = 7;

    /// The number of bits that a row takes in the word.
    pub const REPR: Idx = 8;

    /// Cell `(y, x)` holds a peg. False outside the 8 by 8 grid.
    pub open spec fn cell(self, y: int, x: int) -> bool {
        0 <= y < 8 && 0 <= x < 8 && bit(self.0, 8 * y + x)
    }

    /// No bit outside the 33 cells of the cross is set.
    pub open spec fn wf(self) -> bool {
        self.0 & !FULL_MASK == 0
    }

    /// The board with every hole filled.
    pub open spec fn spec_full() -> Board {
        Board(FULL_MASK)
    }

    /// The board with no peg.
    pub open spec fn spec_empty() -> Board {
        Board(0)
    }

    /// The board at the start of the game: every hole filled but the centre.
    pub open spec fn spec_default() -> Board {
        Board(0x001c_1c7f_777f_1c1c)
    }

    /// The goal: one peg, in the centre.
    pub open spec fn spec_solved() -> Board {
        Board(CENTER_MASK)
    }

    /// A board is well formed exactly when all its pegs stand on the cross.
    pub proof fn lemma_wf_cells(self)
        ensures
            self.wf() <==> (forall|y: int, x: int| #[trigger] self.cell(y, x) ==> in_cross(y, x)),
            self.wf() <==> self@.subset_of(cross()),
    {
        if self.wf() {
            assert forall|y: int, x: int| #[trigger] self.cell(y, x) implies in_cross(y, x) by {
                let i = (8 * y + x) as u64;
                lemma_within(self.0, i);
                lemma_full_bit(i);
            }
        } else {
            let i = lemma_outside(self.0);
            lemma_full_bit(i);
            let y = (i / 8) as int;
            let x = (i % 8) as int;
            assert(self.cell(y, x));
            assert(!in_cross(y, x));
            assert(self@.contains((y, x)));
            assert(!cross().contains((y, x)));
        }
        if forall|y: int, x: int| #[trigger] self.cell(y, x) ==> in_cross(y, x) {
            assert(self@.subset_of(cross()));
        }
    }

    /// The cells of the full board are those of the cross.
    pub proof fn lemma_full_cells()
        ensures
            forall|y: int, x: int| #[trigger] Board::spec_full().cell(y, x) == in_cross(y, x),
            Board::spec_full()@ == cross(),
            Board::spec_full().wf(),
    {
        assert forall|y: int, x: int| #[trigger] Board::spec_full().cell(y, x) == in_cross(
            y,
            x,
        ) by {
            if 0 <= y < 8 && 0 <= x < 8 {
                lemma_full_bit((8 * y + x) as u64);
            }
        }
        assert(Board::spec_full()@ =~= cross());
        assert(FULL_MASK & !FULL_MASK == 0) by (bit_vector);
    }

    /// Boards that agree on every cell are the same board.
    pub proof fn lemma_ext(self, other: Board)
        requires
            forall|y: int, x: int| 0 <= y < 8 && 0 <= x < 8 ==> self.cell(y, x) == other.cell(y, x),
        ensures
            self == other,
    {
        assert forall|i: int| 0 <= i < 64 implies bit(self.0, i) == bit(other.0, i) by {
            assert(self.cell(i / 8, i % 8) == other.cell(i / 8, i % 8));
        }
        lemma_bits_equal(self.0, other.0);
    }

    /// Boards with the same view are the same board.
    pub proof fn lemma_view_ext(self, other: Board)
        requires
            self@ == other@,
        ensures
            self == other,
    {
        assert forall|y: int, x: int| 0 <= y < 8 && 0 <= x < 8 implies self.cell(y, x)
            == other.cell(y, x) by {
            assert(self@.contains((y, x)) == self.cell(y, x));
            assert(other@.contains((y, x)) == other.cell(y, x));
        }
        self.lemma_ext(other);
    }

    /// The occupied cells are as many as the set bits of the word, and at
    /// most 64.
    pub proof fn lemma_view_len(self)
        ensures
            self@.finite(),
            self@.len() == ones(self.0).len(),
            self@.len() <= 64,
    {
        lemma_ones_finite(self.0);
        let f = |i: int| (i / 8, i % 8);
        assert(ones(self.0).map(f) =~= self@) by {
            assert forall|p: (int, int)| self@.contains(p) implies ones(self.0).map(f).contains(
                p,
            ) by {
                let i = 8 * p.0 + p.1;
                assert(ones(self.0).contains(i));
                assert(f(i) == p);
            }
            assert forall|p: (int, int)| ones(self.0).map(f).contains(p) implies self@.contains(
                p,
            ) by {
                let i = choose|i: int| ones(self.0).contains(i) && f(i) == p;
                assert(8 * (i / 8) + i % 8 == i);
            }
        }
        assert(vstd::relations::injective_on(f, ones(self.0))) by {
            assert forall|i: int, j: int|
                ones(self.0).contains(i) && ones(self.0).contains(j) && f(i) == f(
                    j,
                ) implies i == j by {
                assert(8 * (i / 8) + i % 8 == i);
                assert(8 * (j / 8) + j % 8 == j);
            }
        }
        vstd::set_lib::lemma_map_size(ones(self.0), self@, f);
    }

    /// The cross has 33 cells, the board of the start holds 32 pegs, and the
    /// goal one.
    pub proof fn lemma_peg_counts()
        ensures
            cross().finite(),
            cross().len() == 33,
            Board::spec_full()@.len() == 33,
            Board::spec_default()@.len() == 32,
            Board::spec_solved()@.len() == 1,
    {
        let full = Board::spec_full();
        Board::lemma_full_cells();
        full.lemma_view_len();
        let r0 = vstd::set_lib::set_int_range(2, 5);
        let r1 = vstd::set_lib::set_int_range(10, 13);
        let r2 = vstd::set_lib::set_int_range(16, 23);
        let r3 = vstd::set_lib::set_int_range(24, 31);
        let r4 = vstd::set_lib::set_int_range(32, 39);
        let r5 = vstd::set_lib::set_int_range(42, 45);
        let r6 = vstd::set_lib::set_int_range(50, 53);
        vstd::set_lib::lemma_int_range(2, 5);
        vstd::set_lib::lemma_int_range(10, 13);
        vstd::set_lib::lemma_int_range(16, 23);
        vstd::set_lib::lemma_int_range(24, 31);
        vstd::set_lib::lemma_int_range(32, 39);
        vstd::set_lib::lemma_int_range(42, 45);
        vstd::set_lib::lemma_int_range(50, 53);
        let u1 = r0 + r1;
        let u2 = u1 + r2;
        let u3 = u2 + r3;
        let u4 = u3 + r4;
        let u5 = u4 + r5;
        let u6 = u5 + r6;
        vstd::set_lib::lemma_set_disjoint_lens(r0, r1);
        assert(r0.disjoint(r1));
        vstd::set_lib::lemma_set_disjoint_lens(u1, r2);
        assert(u1.disjoint(r2));
        vstd::set_lib::lemma_set_disjoint_lens(u2, r3);
        assert(u2.disjoint(r3));
        vstd::set_lib::lemma_set_disjoint_lens(u3, r4);
        assert(u3.disjoint(r4));
        vstd::set_lib::lemma_set_disjoint_lens(u4, r5);
        assert(u4.disjoint(r5));
        vstd::set_lib::lemma_set_disjoint_lens(u5, r6);
        assert(u5.disjoint(r6));
        assert(ones(FULL_MASK) =~= u6) by {
            assert forall|i: int| ones(FULL_MASK).contains(i) == u6.contains(i) by {
                if 0 <= i < 64 {
                    lemma_full_bit(i as u64);
                }
            }
        }
        Board::lemma_default_cells();
        Board::lemma_solved_cells();
        assert(cross().contains((3int, 3int)));
        assert(Board::spec_solved()@.len() == 1) by {
            assert(Board::spec_solved()@ =~= Set::<(int, int)>::empty().insert((3int, 3int)));
        }
    }

    /// The board with every hole filled.
    pub fn full() -> (r: Board)
        ensures
            r == Board::spec_full(),
            r@ == cross(),
            r.wf(),
    {
        proof {
            Board::lemma_full_cells();
        }
        Board(FULL_MASK)
    }

    /// The board with no peg.
    pub fn empty() -> (r: Board)
        ensures
            r == Board::spec_empty(),
            r@ == Set::<(int, int)>::empty(),
            r.wf(),
    {
        let r = Board(0);
        proof {
            assert forall|p: (int, int)| !r@.contains(p) by {
                if 0 <= p.0 < 8 && 0 <= p.1 < 8 {
                    lemma_bit_ops(0, 0, (8 * p.0 + p.1) as u64);
                }
            }
            assert(r@ =~= Set::<(int, int)>::empty());
            assert(0u64 & !FULL_MASK == 0) by (bit_vector);
        }
        r
    }

    /// The goal: one peg, in the centre.
    pub fn solved() -> (r: Board)
        ensures
            r == Board::spec_solved(),
            r@ == set![(3int, 3int)],
            r.wf(),
    {
        let r = Board(CENTER_MASK);
        proof {
            Board::lemma_solved_cells();
        }
        r
    }

    /// The goal holds the centre cell and no other.
    pub proof fn lemma_solved_cells()
        ensures
            forall|y: int, x: int| #[trigger] Board::spec_solved().cell(y, x) == (y == 3 && x == 3),
            Board::spec_solved()@ == set![(3int, 3int)],
            Board::spec_solved().wf(),
    {
        assert(CENTER_MASK == 1u64 << 27) by (bit_vector);
        assert forall|y: int, x: int| #[trigger] Board::spec_solved().cell(y, x) == (y == 3 && x
            == 3) by {
            if 0 <= y < 8 && 0 <= x < 8 {
                lemma_bit_single(27, (8 * y + x) as u64);
            }
        }
        assert(Board::spec_solved()@ =~= set![(3int, 3int)]);
        assert(CENTER_MASK & !FULL_MASK == 0) by (bit_vector);
    }

    /// The start holds every cell of the cross but the centre.
    pub proof fn lemma_default_cells()
        ensures
            forall|y: int, x: int| #[trigger]
                Board::spec_default().cell(y, x) == (in_cross(y, x) && !(y == 3 && x == 3)),
            Board::spec_default()@ == cross().remove((3int, 3int)),
            Board::spec_default().wf(),
    {
        assert(0x001c_1c7f_777f_1c1cu64 == FULL_MASK & !(1u64 << 27)) by (bit_vector);
        assert forall|y: int, x: int| #[trigger]
            Board::spec_default().cell(y, x) == (in_cross(y, x) && !(y == 3 && x == 3)) by {
            if 0 <= y < 8 && 0 <= x < 8 {
                let i = (8 * y + x) as u64;
                lemma_bit_single(27, i);
                lemma_bit_ops(1u64 << 27, 0, i);
                lemma_bit_ops(FULL_MASK, !(1u64 << 27), i);
                lemma_full_bit(i);
            }
        }
        assert(Board::spec_default()@ =~= cross().remove((3int, 3int)));
        assert(0x001c_1c7f_777f_1c1cu64 & !FULL_MASK == 0) by (bit_vector);
    }

    /// Whether `pos` is one of the 33 cells of the cross.
    pub fn inbounds(pos: (Idx, Idx)) -> (r: bool)
        ensures
            r == in_cross(pos.0 as int, pos.1 as int),
    {
        let (y, x) = pos;
        if y < 0 || y >= Board::SIZE || x < 0 || x >= Board::SIZE {
            return false;
        }
        let idx: u64 = (y * Board::REPR + x) as u64;
        proof {
            lemma_test_bit(FULL_MASK, idx);
            lemma_full_bit(idx);
        }
        (FULL_MASK & (1u64 << idx)) != 0
    }

    /// Whether the cell `pos` holds a peg. A position outside the grid holds
    /// none.
    pub fn occupied(&self, pos: (Idx, Idx)) -> (r: bool)
        ensures
            r == self.cell(pos.0 as int, pos.1 as int),
    {
        let (y, x) = pos;
        if y < 0 || y >= Board::REPR || x < 0 || x >= Board::REPR {
            return false;
        }
        let idx: u64 = (y * Board::REPR + x) as u64;
        proof {
            lemma_test_bit(self.0, idx);
        }
        (self.0 & (1u64 << idx)) != 0
    }

    /// Whether bit `idx` of the word is set, that is cell `(idx / 8, idx % 8)`.
    pub fn occupied_idx(&self, idx: usize) -> (r: bool)
        requires
            idx < 64,
        ensures
            r == bit(self.0, idx as int),
            r == self.cell(idx as int / 8, idx as int % 8),
    {
        proof {
            lemma_test_bit(self.0, idx as u64);
        }
        (self.0 & (1u64 << idx)) != 0
    }

    /// The board with a peg put on the empty cell `pos`.
    pub fn set(self, pos: (Idx, Idx)) -> (r: Board)
        requires
            0 <= pos.0 < 8,
            0 <= pos.1 < 8,
            !self.cell(pos.0 as int, pos.1 as int),
        ensures
            r@ == self@.insert(at(pos)),
            r.0 == self.0 | (1u64 << ((8 * pos.0 + pos.1) as u64)),
            self.wf() && in_cross(pos.0 as int, pos.1 as int) ==> r.wf(),
    {
        let (y, x) = pos;
        let idx: u64 = (y * Board::REPR + x) as u64;
        let r = Board(self.0 | (1u64 << idx));
        proof {
            assert forall|v: int, u: int| 0 <= v < 8 && 0 <= u < 8 implies r.cell(v, u) == (
            self.cell(v, u) || (v == y && u == x)) by {
                lemma_bit_ops(self.0, 1u64 << idx, (8 * v + u) as u64);
                lemma_bit_single(idx, (8 * v + u) as u64);
            }
            assert(r@ =~= self@.insert(at(pos)));
            self.lemma_wf_cells();
            r.lemma_wf_cells();
        }
        r
    }

    /// The board with the peg taken from the occupied cell `pos`.
    pub fn unset(self, pos: (Idx, Idx)) -> (r: Board)
        requires
            0 <= pos.0 < 8,
            0 <= pos.1 < 8,
            self.cell(pos.0 as int, pos.1 as int),
        ensures
            r@ == self@.remove(at(pos)),
            r.0 == self.0 & !(1u64 << ((8 * pos.0 + pos.1) as u64)),
            self.wf() ==> r.wf(),
    {
        let (y, x) = pos;
        let idx: u64 = (y * Board::REPR + x) as u64;
        let r = Board(self.0 & !(1u64 << idx));
        proof {
            assert forall|v: int, u: int| 0 <= v < 8 && 0 <= u < 8 implies r.cell(v, u) == (
            self.cell(v, u) && !(v == y && u == x)) by {
                lemma_bit_ops(self.0, !(1u64 << idx), (8 * v + u) as u64);
                lemma_bit_ops(1u64 << idx, 0, (8 * v + u) as u64);
                lemma_bit_single(idx, (8 * v + u) as u64);
            }
            assert(r@ =~= self@.remove(at(pos)));
            self.lemma_wf_cells();
            r.lemma_wf_cells();
        }
        r
    }

    /// The number of pegs on the board.
    pub fn count_balls(&self) -> (r: u64)
        ensures
            r == self@.len(),
            r <= 64,
    {
        proof {
            self.lemma_view_len();
        }
        count_set_bits(self.0) as u64
    }

    /// Whether the board is the goal.
    pub fn is_solved(&self) -> (r: bool)
        ensures
            r == (*self == Board::spec_solved()),
    {
        self.0 == CENTER_MASK
    }

    /// A cheap test that every solvable board passes and some unsolvable ones
    /// too: at least one of the five pivot cells holds a peg.
    pub fn is_solvable(&self) -> (r: bool)
        ensures
            r == (self.cell(1, 3) || self.cell(3, 1) || self.cell(3, 3) || self.cell(3, 5)
                || self.cell(5, 3)),
    {
        proof {
            lemma_pivot(self.0);
        }
        (self.0 & PIVOT_MASK) != 0
    }

    /// The board with pegs and holes exchanged on the cross.
    pub open spec fn spec_inverse(self) -> Board {
        Board(!self.0 & FULL_MASK)
    }

    /// The cells of the inverse: those of the cross that the board leaves
    /// empty.
    pub proof fn lemma_inverse_cells(self)
        ensures
            forall|y: int, x: int| #[trigger]
                self.spec_inverse().cell(y, x) == (in_cross(y, x) && !self.cell(y, x)),
            self.spec_inverse()@ == cross().difference(self@),
            self.spec_inverse().wf(),
    {
        let r = self.spec_inverse();
        assert forall|y: int, x: int| #[trigger]
            r.cell(y, x) == (in_cross(y, x) && !self.cell(y, x)) by {
            if 0 <= y < 8 && 0 <= x < 8 {
                let i = (8 * y + x) as u64;
                lemma_bit_ops(!self.0, FULL_MASK, i);
                lemma_bit_ops(self.0, 0, i);
                lemma_full_bit(i);
            }
        }
        assert(r@ =~= cross().difference(self@));
        r.lemma_wf_cells();
    }

    /// The board with pegs and holes exchanged on the cross.
    pub fn inverse(&self) -> (r: Board)
        ensures
            r == self.spec_inverse(),
            r@ == cross().difference(self@),
            r.wf(),
    {
        proof {
            self.lemma_inverse_cells();
        }
        Board(!self.0 & FULL_MASK)
    }

    /// `m` can be played on the board: its three cells lie on the cross, the
    /// peg and the peg it jumps over are there and are two, and the landing
    /// cell is empty.
    pub open spec fn admits(self, m: Move) -> bool {
        &&& in_cross(m.pos.0 as int, m.pos.1 as int)
        &&& in_cross(m.skip.0 as int, m.skip.1 as int)
        &&& in_cross(m.target.0 as int, m.target.1 as int)
        &&& self.cell(m.pos.0 as int, m.pos.1 as int)
        &&& self.cell(m.skip.0 as int, m.skip.1 as int)
        &&& !self.cell(m.target.0 as int, m.target.1 as int)
        &&& m.pos != m.skip
    }

    /// `m` can be taken back on the board: its three cells lie on the cross,
    /// the landing cell holds a peg, and the other two are empty and are two.
    pub open spec fn admits_reverse(self, m: Move) -> bool {
        &&& in_cross(m.pos.0 as int, m.pos.1 as int)
        &&& in_cross(m.skip.0 as int, m.skip.1 as int)
        &&& in_cross(m.target.0 as int, m.target.1 as int)
        &&& !self.cell(m.pos.0 as int, m.pos.1 as int)
        &&& !self.cell(m.skip.0 as int, m.skip.1 as int)
        &&& self.cell(m.target.0 as int, m.target.1 as int)
        &&& m.pos != m.skip
    }

    /// `m` is a legal move on the board: a jump in a straight line that the
    /// board admits.
    pub open spec fn legal(self, m: Move) -> bool {
        m.is_jump() && self.admits(m)
    }

    /// `m` is a legal move to take back on the board.
    pub open spec fn legal_reverse(self, m: Move) -> bool {
        m.is_jump() && self.admits_reverse(m)
    }

    /// The cells after `m` is played.
    pub open spec fn cells_after(self, m: Move) -> Set<(int, int)> {
        self@.remove(at(m.pos)).remove(at(m.skip)).insert(at(m.target))
    }

    /// The cells after `m` is taken back.
    pub open spec fn cells_before(self, m: Move) -> Set<(int, int)> {
        self@.insert(at(m.pos)).insert(at(m.skip)).remove(at(m.target))
    }

    /// The board after `m` is played, as a word.
    pub open spec fn spec_mov(self, m: Move) -> Board {
        Board((self.0 & !cell_mask(m.pos) & !cell_mask(m.skip)) | cell_mask(m.target))
    }

    /// The board before `m` was played, as a word.
    pub open spec fn spec_reverse_mov(self, m: Move) -> Board {
        Board((self.0 | cell_mask(m.pos) | cell_mask(m.skip)) & !cell_mask(m.target))
    }

    /// What playing a move, and taking one back, does to the cells.
    pub proof fn lemma_mov_cells(self, m: Move)
        ensures
            self.admits(m) ==> self.spec_mov(m)@ == self.cells_after(m) && (self.wf()
                ==> self.spec_mov(m).wf()),
            self.admits_reverse(m) ==> self.spec_reverse_mov(m)@ == self.cells_before(m) && (
            self.wf() ==> self.spec_reverse_mov(m).wf()),
    {
        if self.admits(m) || self.admits_reverse(m) {
            let p = cell_mask(m.pos);
            let s = cell_mask(m.skip);
            let t = cell_mask(m.target);
            let ip = (8 * m.pos.0 + m.pos.1) as u64;
            let is = (8 * m.skip.0 + m.skip.1) as u64;
            let it = (8 * m.target.0 + m.target.1) as u64;
            let f = self.spec_mov(m);
            let r = self.spec_reverse_mov(m);
            assert forall|y: int, x: int| 0 <= y < 8 && 0 <= x < 8 implies f.cell(y, x) == ((
            self.cell(y, x) && (y, x) != at(m.pos) && (y, x) != at(m.skip)) || (y, x) == at(
                m.target,
            )) && r.cell(y, x) == ((self.cell(y, x) || (y, x) == at(m.pos) || (y, x) == at(
                m.skip,
            )) && (y, x) != at(m.target)) by {
                let i = (8 * y + x) as u64;
                lemma_bit_single(ip, i);
                lemma_bit_single(is, i);
                lemma_bit_single(it, i);
                lemma_bit_ops(p, 0, i);
                lemma_bit_ops(s, 0, i);
                lemma_bit_ops(t, 0, i);
                lemma_bit_ops(self.0, !p, i);
                lemma_bit_ops(self.0 & !p, !s, i);
                lemma_bit_ops(self.0 & !p & !s, t, i);
                lemma_bit_ops(self.0, p, i);
                lemma_bit_ops(self.0 | p, s, i);
                lemma_bit_ops(self.0 | p | s, !t, i);
            }
            self.lemma_wf_cells();
            if self.admits(m) {
                assert(f@ =~= self.cells_after(m));
                f.lemma_wf_cells();
            }
            if self.admits_reverse(m) {
                assert(r@ =~= self.cells_before(m));
                r.lemma_wf_cells();
            }
        }
    }

    /// The board after `m` is played: the peg and the one it jumps over are
    /// gone, the landing cell is filled.
    pub fn mov(&self, m: Move) -> (r: Board)
        requires
            self.admits(m),
        ensures
            r == self.spec_mov(m),
            r@ == self.cells_after(m),
            self.wf() ==> r.wf(),
            r@.len() + 1 == self@.len(),
    {
        proof {
            self.lemma_view_len();
        }
        let a = self.unset(m.pos);
        assert(a@.contains(at(m.skip)));
        let b = a.unset(m.skip);
        assert(!b@.contains(at(m.target)));
        b.set(m.target)
    }

    /// The board before `m` was played: the peg is back where it came from,
    /// the one it jumped over is back, and the landing cell is empty.
    pub fn reverse_mov(&self, m: Move) -> (r: Board)
        requires
            self.admits_reverse(m),
        ensures
            r == self.spec_reverse_mov(m),
            r@ == self.cells_before(m),
            self.wf() ==> r.wf(),
            r@.len() == self@.len() + 1,
    {
        proof {
            self.lemma_view_len();
        }
        let a = self.set(m.pos);
        assert(!a@.contains(at(m.skip)));
        let b = a.set(m.skip);
        assert(b@.contains(at(m.target)));
        b.unset(m.target)
    }
}

impl Default for Board {
    /// The board at the start of the game.
    fn default() -> (r: Board)
        ensures
            r == Board::spec_default(),
            r@ == cross().remove((3int, 3int)),
            r.wf(),
    {
        proof {
            Board::lemma_default_cells();
        }
        Board(0x001c_1c7f_777f_1c1c)
    }
}

} // verus!
