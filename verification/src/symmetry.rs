//! The eight symmetries of the board, and the canonical form of a board: the
//! least of its eight images.

use crate::bits::{
    bit, bit_reverse, byte_swap, lemma_bit_reverse_bit, lemma_bit_shift, lemma_byte_swap_bit,
    reverse_bit_order, swap_byte_order,
};
use crate::board::{in_cross, Board};
use vstd::prelude::*;

verus! {

/// The word read as an 8 by 8 grid, with rows and columns exchanged: three
/// passes that exchange single bits, 2 by 2 blocks and 4 by 4 blocks across the
/// diagonal.
pub open spec fn transpose_bits(a: u64) -> u64 {
    let t1 = (a ^ (a >> 7)) & 0x00AA_00AA_00AA_00AA;
    let x1 = a ^ t1 ^ (t1 << 7);
    let t2 = (x1 ^ (x1 >> 14)) & 0x0000_CCCC_0000_CCCC;
    let x2 = x1 ^ t2 ^ (t2 << 14);
    let t3 = (x2 ^ (x2 >> 28)) & 0x0000_0000_F0F0_F0F0;
    x2 ^ t3 ^ (t3 << 28)
}

proof fn lemma_transpose_bit(a: u64, y: u64, x: u64)
    by (bit_vector)
    requires
        y < 8,
        x < 8,
    ensures
        bit(transpose_bits(a), (8 * y + x) as int) == bit(a, (8 * x + y) as int),
{
}

/// The cell of a board that the `k`-th symmetry brings to `p`. The symmetries
/// are numbered as `symmetries` lists them: the identity, the quarter turn,
/// the half turn, the three-quarter turn, the columns reversed, the rows
/// reversed, the reflection in the second diagonal, the reflection in the
/// first diagonal.
pub open spec fn sym_cell(k: int, p: (int, int)) -> (int, int) {
    let (y, x) = p;
    if k == 0 {
        (y, x)
    } else if k == 1 {
        (6 - x, y)
    } else if k == 2 {
        (6 - y, 6 - x)
    } else if k == 3 {
        (x, 6 - y)
    } else if k == 4 {
        (6 - y, x)
    } else if k == 5 {
        (y, 6 - x)
    } else if k == 6 {
        (6 - x, 6 - y)
    } else {
        (x, y)
    }
}

/// The number of the symmetry that does what the `i`-th followed by the `j`-th
/// does.
pub open spec fn sym_compose(i: int, j: int) -> int {
    let table = seq![
        seq![0int, 1, 2, 3, 4, 5, 6, 7],
        seq![1int, 2, 3, 0, 6, 7, 5, 4],
        seq![2int, 3, 0, 1, 5, 4, 7, 6],
        seq![3int, 0, 1, 2, 7, 6, 4, 5],
        seq![4int, 7, 5, 6, 0, 2, 3, 1],
        seq![5int, 6, 4, 7, 2, 0, 1, 3],
        seq![6int, 4, 7, 5, 1, 3, 0, 2],
        seq![7int, 5, 6, 4, 3, 1, 2, 0],
    ];
    table[i][j]
}

/// The number of the symmetry that undoes the `k`-th.
pub open spec fn sym_inverse(k: int) -> int {
    if k == 1 {
        3
    } else if k == 3 {
        1
    } else {
        k
    }
}

/// The board of the smaller word among two.
pub open spec fn min_board(a: Board, b: Board) -> Board {
    if a.0 <= b.0 {
        a
    } else {
        b
    }
}

impl Board {
    /// Each row reversed: cell `(y, x)` holds what `(y, 6 - x)` held.
    pub open spec fn spec_reverse_rows(self) -> Board {
        Board(bit_reverse(byte_swap(self.0)) >> 1)
    }

    /// Each column reversed: cell `(y, x)` holds what `(6 - y, x)` held.
    pub open spec fn spec_reverse_cols(self) -> Board {
        Board(byte_swap(self.0) >> 8)
    }

    /// The half turn: cell `(y, x)` holds what `(6 - y, 6 - x)` held.
    pub open spec fn spec_rotate_180(self) -> Board {
        Board(bit_reverse(self.0) >> 9)
    }

    /// Rows and columns exchanged: cell `(y, x)` holds what `(x, y)` held.
    pub open spec fn spec_transpose(self) -> Board {
        Board(transpose_bits(self.0))
    }

    /// The eight images of the board under the symmetries of the square.
    pub open spec fn spec_symmetries(self) -> Seq<Board> {
        let t = self.spec_transpose();
        seq![
            self,
            t.spec_reverse_rows(),
            self.spec_rotate_180(),
            t.spec_reverse_cols(),
            self.spec_reverse_cols(),
            self.spec_reverse_rows(),
            t.spec_rotate_180(),
            t,
        ]
    }

    /// The canonical form: the image with the least word.
    pub open spec fn spec_normalize(self) -> Board {
        let s = self.spec_symmetries();
        min_board(
            s[0],
            min_board(
                s[1],
                min_board(s[2], min_board(s[3], min_board(s[4], min_board(s[5], min_board(s[6], s[7]))))),
            ),
        )
    }

    /// The board is its own canonical form.
    pub open spec fn canonical(self) -> bool {
        self.spec_normalize() == self
    }

    /// What reversing the rows does to the cells.
    pub proof fn lemma_reverse_rows_cells(self)
        ensures
            forall|y: int, x: int|
                0 <= y < 7 && 0 <= x < 7 ==> #[trigger] self.spec_reverse_rows().cell(y, x)
                    == self.cell(y, 6 - x),
            self.wf() ==> self.spec_reverse_rows().wf(),
    {
        let r = self.spec_reverse_rows();
        let s = byte_swap(self.0);
        assert forall|y: int, x: int| 0 <= y < 8 && 0 <= x < 8 implies #[trigger] r.cell(y, x) == (
        if x < 7 {
            self.cell(y, 6 - x)
        } else {
            self.cell(y + 1, 7)
        }) by {
            let i = (8 * y + x) as u64;
            lemma_bit_shift(bit_reverse(s), 1, i);
            if i + 1 < 64 {
                lemma_bit_reverse_bit(s, (i + 1) as u64);
                lemma_byte_swap_bit(self.0, (62 - i) as u64);
            }
        }
        if self.wf() {
            self.lemma_wf_cells();
            r.lemma_wf_cells();
        }
    }

    /// What reversing the columns does to the cells.
    pub proof fn lemma_reverse_cols_cells(self)
        ensures
            forall|y: int, x: int|
                0 <= y < 7 && 0 <= x < 7 ==> #[trigger] self.spec_reverse_cols().cell(y, x)
                    == self.cell(6 - y, x),
            self.wf() ==> self.spec_reverse_cols().wf(),
    {
        let r = self.spec_reverse_cols();
        assert forall|y: int, x: int| 0 <= y < 8 && 0 <= x < 8 implies #[trigger] r.cell(y, x) == (
        y < 7 && self.cell(6 - y, x)) by {
            let i = (8 * y + x) as u64;
            lemma_bit_shift(byte_swap(self.0), 8, i);
            if i + 8 < 64 {
                lemma_byte_swap_bit(self.0, (i + 8) as u64);
            }
        }
        if self.wf() {
            self.lemma_wf_cells();
            r.lemma_wf_cells();
        }
    }

    /// What the half turn does to the cells.
    pub proof fn lemma_rotate_180_cells(self)
        ensures
            forall|y: int, x: int|
                0 <= y < 7 && 0 <= x < 7 ==> #[trigger] self.spec_rotate_180().cell(y, x)
                    == self.cell(6 - y, 6 - x),
            self.wf() ==> self.spec_rotate_180().wf(),
    {
        let r = self.spec_rotate_180();
        assert forall|y: int, x: int| 0 <= y < 8 && 0 <= x < 8 implies #[trigger] r.cell(y, x) == (
        if y == 7 {
            false
        } else if x < 7 {
            self.cell(6 - y, 6 - x)
        } else {
            self.cell(5 - y, 7)
        }) by {
            let i = (8 * y + x) as u64;
            lemma_bit_shift(bit_reverse(self.0), 9, i);
            if i + 9 < 64 {
                lemma_bit_reverse_bit(self.0, (i + 9) as u64);
            }
        }
        if self.wf() {
            self.lemma_wf_cells();
            r.lemma_wf_cells();
        }
    }

    /// What exchanging rows and columns does to the cells.
    pub proof fn lemma_transpose_cells(self)
        ensures
            forall|y: int, x: int| #[trigger] self.spec_transpose().cell(y, x) == self.cell(x, y),
            self.wf() ==> self.spec_transpose().wf(),
    {
        let r = self.spec_transpose();
        assert forall|y: int, x: int| #[trigger] r.cell(y, x) == self.cell(x, y) by {
            if 0 <= y < 8 && 0 <= x < 8 {
                lemma_transpose_bit(self.0, y as u64, x as u64);
            }
        }
        if self.wf() {
            self.lemma_wf_cells();
            r.lemma_wf_cells();
        }
    }

    /// The cells of the `k`-th image of a well-formed board: each holds what
    /// the cell that the symmetry brings there held. The image is well formed.
    pub proof fn lemma_sym_cells(self, k: int)
        requires
            self.wf(),
            0 <= k < 8,
        ensures
            self.spec_symmetries()[k].wf(),
            forall|y: int, x: int| #[trigger]
                self.spec_symmetries()[k].cell(y, x) == self.cell(
                    sym_cell(k, (y, x)).0,
                    sym_cell(k, (y, x)).1,
                ),
    {
        let t = self.spec_transpose();
        let r = self.spec_symmetries()[k];
        self.lemma_wf_cells();
        self.lemma_transpose_cells();
        t.lemma_wf_cells();
        if k == 1 {
            t.lemma_reverse_rows_cells();
        } else if k == 2 {
            self.lemma_rotate_180_cells();
        } else if k == 3 {
            t.lemma_reverse_cols_cells();
        } else if k == 4 {
            self.lemma_reverse_cols_cells();
        } else if k == 5 {
            self.lemma_reverse_rows_cells();
        } else if k == 6 {
            t.lemma_rotate_180_cells();
        }
        r.lemma_wf_cells();
        assert forall|y: int, x: int| #[trigger]
            r.cell(y, x) == self.cell(sym_cell(k, (y, x)).0, sym_cell(k, (y, x)).1) by {
            if r.cell(y, x) {
                assert(in_cross(y, x));
            }
            if self.cell(sym_cell(k, (y, x)).0, sym_cell(k, (y, x)).1) {
                assert(in_cross(sym_cell(k, (y, x)).0, sym_cell(k, (y, x)).1));
                assert(in_cross(y, x));
            }
        }
    }

    /// A symmetry after a symmetry is a symmetry: the `j`-th image of the
    /// `i`-th image of a well-formed board is its image under the symmetry
    /// numbered `sym_compose(i, j)`.
    pub proof fn lemma_sym_compose(self, i: int, j: int)
        requires
            self.wf(),
            0 <= i < 8,
            0 <= j < 8,
        ensures
            0 <= sym_compose(i, j) < 8,
            self.spec_symmetries()[i].spec_symmetries()[j] == self.spec_symmetries()[sym_compose(
                i,
                j,
            )],
    {
        let k = sym_compose(i, j);
        let a = self.spec_symmetries()[i];
        self.lemma_sym_cells(i);
        a.lemma_sym_cells(j);
        self.lemma_sym_cells(k);
        let l = a.spec_symmetries()[j];
        let r = self.spec_symmetries()[k];
        assert forall|y: int, x: int| 0 <= y < 8 && 0 <= x < 8 implies l.cell(y, x) == r.cell(
            y,
            x,
        ) by {
            let q = sym_cell(j, (y, x));
            assert(l.cell(y, x) == a.cell(q.0, q.1));
            assert(a.cell(q.0, q.1) == self.cell(sym_cell(i, q).0, sym_cell(i, q).1));
            assert(sym_cell(i, q) == sym_cell(k, (y, x)));
        }
        l.lemma_ext(r);
    }

    /// The canonical form is one of the eight images and is not above any of
    /// them.
    pub proof fn lemma_normalize_least(self)
        ensures
            exists|k: int| 0 <= k < 8 && self.spec_normalize() == self.spec_symmetries()[k],
            forall|k: int| 0 <= k < 8 ==> self.spec_normalize().0 <= self.spec_symmetries()[k].0,
    {
        let s = self.spec_symmetries();
        let n = self.spec_normalize();
        let k = if n == s[0] {
            0int
        } else if n == s[1] {
            1
        } else if n == s[2] {
            2
        } else if n == s[3] {
            3
        } else if n == s[4] {
            4
        } else if n == s[5] {
            5
        } else if n == s[6] {
            6
        } else {
            7
        };
        assert(n == s[k]);
    }

    /// The images of an image are the images of the board, so both have the
    /// same canonical form.
    pub proof fn lemma_normalize_sym(self, i: int)
        requires
            self.wf(),
            0 <= i < 8,
        ensures
            self.spec_symmetries()[i].spec_normalize() == self.spec_normalize(),
    {
        let a = self.spec_symmetries()[i];
        self.lemma_normalize_least();
        a.lemma_normalize_least();
        let n = self.spec_normalize();
        let m = a.spec_normalize();
        let kn = choose|k: int| 0 <= k < 8 && n == self.spec_symmetries()[k];
        let km = choose|k: int| 0 <= k < 8 && m == a.spec_symmetries()[k];
        // the canonical form of the image is an image of the board
        self.lemma_sym_compose(i, km);
        assert(n.0 <= m.0);
        // the canonical form of the board is an image of the image
        let back = sym_inverse(i);
        let j = sym_compose(back, kn);
        self.lemma_sym_compose(i, back);
        assert(sym_compose(i, back) == 0);
        self.lemma_sym_cells(i);
        a.lemma_sym_cells(back);
        a.lemma_sym_compose(back, kn);
        assert(a.spec_symmetries()[back] == self);
        assert(a.spec_symmetries()[j] == n);
        assert(m.0 <= n.0);
    }

    /// The canonical form of a well-formed board is well formed and is its own
    /// canonical form.
    pub proof fn lemma_normalize_canonical(self)
        requires
            self.wf(),
        ensures
            self.spec_normalize().wf(),
            self.spec_normalize().canonical(),
    {
        self.lemma_normalize_least();
        let k = choose|k: int| 0 <= k < 8 && self.spec_normalize() == self.spec_symmetries()[k];
        self.lemma_sym_cells(k);
        self.lemma_normalize_sym(k);
    }

    /// Taking the inverse twice gives a well-formed board back.
    pub proof fn lemma_inverse_involution(self)
        requires
            self.wf(),
        ensures
            self.spec_inverse().spec_inverse() == self,
    {
        self.lemma_inverse_cells();
        self.spec_inverse().lemma_inverse_cells();
        self.lemma_wf_cells();
        self.spec_inverse().spec_inverse().lemma_ext(self);
    }

    /// The image of the inverse is the inverse of the image.
    pub proof fn lemma_inverse_sym(self, k: int)
        requires
            self.wf(),
            0 <= k < 8,
        ensures
            self.spec_inverse().spec_symmetries()[k] == self.spec_symmetries()[k].spec_inverse(),
    {
        let inv = self.spec_inverse();
        let l = inv.spec_symmetries()[k];
        let r = self.spec_symmetries()[k].spec_inverse();
        self.lemma_inverse_cells();
        inv.lemma_sym_cells(k);
        self.lemma_sym_cells(k);
        self.spec_symmetries()[k].lemma_inverse_cells();
        assert forall|y: int, x: int| 0 <= y < 8 && 0 <= x < 8 implies l.cell(y, x) == r.cell(
            y,
            x,
        ) by {
            let q = sym_cell(k, (y, x));
            assert(l.cell(y, x) == inv.cell(q.0, q.1));
            assert(in_cross(q.0, q.1) == in_cross(y, x));
        }
        l.lemma_ext(r);
    }

    /// The canonical form of the inverse of an image is that of the inverse
    /// of the board.
    pub proof fn lemma_inverse_normalize(self)
        requires
            self.wf(),
        ensures
            self.spec_normalize().spec_inverse().spec_normalize()
                == self.spec_inverse().spec_normalize(),
    {
        self.lemma_normalize_least();
        let k = choose|k: int| 0 <= k < 8 && self.spec_normalize() == self.spec_symmetries()[k];
        self.lemma_inverse_sym(k);
        self.lemma_inverse_cells();
        self.spec_inverse().lemma_normalize_sym(k);
    }

    /// Pegs and holes exchanged, brought to canonical form, and the same
    /// again give a canonical well-formed board back.
    pub proof fn lemma_pairing_involution(self)
        requires
            self.wf(),
            self.canonical(),
        ensures
            self.spec_inverse().spec_normalize().wf(),
            self.spec_inverse().spec_normalize().canonical(),
            self.spec_inverse().spec_normalize().spec_inverse().spec_normalize() == self,
    {
        let inv = self.spec_inverse();
        self.lemma_inverse_cells();
        inv.lemma_normalize_canonical();
        inv.lemma_inverse_normalize();
        self.lemma_inverse_involution();
    }

    /// A board whose cells every symmetry maps onto themselves is each of
    /// its images, and so is canonical.
    pub proof fn lemma_symmetric(self)
        requires
            self.wf(),
            forall|k: int, y: int, x: int|
                0 <= k < 8 ==> self.cell(y, x) == self.cell(
                    (#[trigger] sym_cell(k, (y, x))).0,
                    sym_cell(k, (y, x)).1,
                ),
        ensures
            forall|k: int| 0 <= k < 8 ==> #[trigger] self.spec_symmetries()[k] == self,
            self.canonical(),
    {
        assert forall|k: int| 0 <= k < 8 implies #[trigger] self.spec_symmetries()[k] == self by {
            self.lemma_sym_cells(k);
            let r = self.spec_symmetries()[k];
            assert forall|y: int, x: int| 0 <= y < 8 && 0 <= x < 8 implies r.cell(y, x)
                == self.cell(y, x) by {
                let q = sym_cell(k, (y, x));
                assert(r.cell(y, x) == self.cell(q.0, q.1));
            }
            r.lemma_ext(self);
        }
    }

    /// The start and the goal look the same under every symmetry.
    pub proof fn lemma_start_and_goal_symmetric()
        ensures
            forall|k: int| 0 <= k < 8 ==> #[trigger] Board::spec_default().spec_symmetries()[k]
                == Board::spec_default(),
            forall|k: int| 0 <= k < 8 ==> #[trigger] Board::spec_solved().spec_symmetries()[k]
                == Board::spec_solved(),
            Board::spec_default().canonical(),
            Board::spec_solved().canonical(),
    {
        Board::lemma_default_cells();
        Board::lemma_solved_cells();
        Board::spec_default().lemma_symmetric();
        Board::spec_solved().lemma_symmetric();
    }

    /// An image holds as many pegs as the board.
    pub proof fn lemma_sym_len(self, k: int)
        requires
            self.wf(),
            0 <= k < 8,
        ensures
            self.spec_symmetries()[k]@.len() == self@.len(),
            self.spec_normalize()@.len() == self@.len(),
    {
        self.lemma_sym_len_one(k);
        self.lemma_normalize_least();
        let n = choose|n: int| 0 <= n < 8 && self.spec_normalize() == self.spec_symmetries()[n];
        self.lemma_sym_len_one(n);
    }

    proof fn lemma_sym_len_one(self, k: int)
        requires
            self.wf(),
            0 <= k < 8,
        ensures
            self.spec_symmetries()[k]@.len() == self@.len(),
    {
        let r = self.spec_symmetries()[k];
        let back = sym_inverse(k);
        self.lemma_sym_cells(k);
        self.lemma_view_len();
        let f = |p: (int, int)| sym_cell(back, p);
        assert(self@.map(f) =~= r@) by {
            assert forall|q: (int, int)| r@.contains(q) implies self@.map(f).contains(q) by {
                let p = sym_cell(k, q);
                assert(r.cell(q.0, q.1));
                assert(self.cell(p.0, p.1));
                assert(self@.contains(p));
                assert(f(p) == q);
            }
            assert forall|q: (int, int)| self@.map(f).contains(q) implies r@.contains(q) by {
                let p = choose|p: (int, int)| self@.contains(p) && f(p) == q;
                assert(sym_cell(k, q) == p);
                assert(r.cell(q.0, q.1) == self.cell(p.0, p.1));
            }
        }
        assert(vstd::relations::injective_on(f, self@)) by {
            assert forall|a: (int, int), b: (int, int)|
                self@.contains(a) && self@.contains(b) && f(a) == f(b) implies a == b by {
                assert(sym_cell(k, f(a)) == a);
                assert(sym_cell(k, f(b)) == b);
            }
        }
        vstd::set_lib::lemma_map_size(self@, r@, f);
    }

    /// Each row reversed.
    pub fn reverse_rows(&self) -> (r: Board)
        ensures
            r == self.spec_reverse_rows(),
            forall|y: int, x: int|
                0 <= y < 7 && 0 <= x < 7 ==> #[trigger] r.cell(y, x) == self.cell(y, 6 - x),
            self.wf() ==> r.wf(),
    {
        proof {
            self.lemma_reverse_rows_cells();
        }
        Board(reverse_bit_order(swap_byte_order(self.0)) >> 1)
    }

    /// Each column reversed.
    pub fn reverse_cols(&self) -> (r: Board)
        ensures
            r == self.spec_reverse_cols(),
            forall|y: int, x: int|
                0 <= y < 7 && 0 <= x < 7 ==> #[trigger] r.cell(y, x) == self.cell(6 - y, x),
            self.wf() ==> r.wf(),
    {
        proof {
            self.lemma_reverse_cols_cells();
        }
        Board(swap_byte_order(self.0) >> 8)
    }

    /// The half turn.
    pub fn rotate_180(&self) -> (r: Board)
        ensures
            r == self.spec_rotate_180(),
            forall|y: int, x: int|
                0 <= y < 7 && 0 <= x < 7 ==> #[trigger] r.cell(y, x) == self.cell(6 - y, 6 - x),
            self.wf() ==> r.wf(),
    {
        proof {
            self.lemma_rotate_180_cells();
        }
        Board(reverse_bit_order(self.0) >> 9)
    }

    /// Rows and columns exchanged.
    pub fn transpose(&self) -> (r: Board)
        ensures
            r == self.spec_transpose(),
            forall|y: int, x: int| #[trigger] r.cell(y, x) == self.cell(x, y),
            self.wf() ==> r.wf(),
    {
        proof {
            self.lemma_transpose_cells();
        }
        let mut x = self.0;
        let t = (x ^ (x >> 7)) & 0x00AA_00AA_00AA_00AA;
        x = x ^ t ^ (t << 7);
        let t = (x ^ (x >> 14)) & 0x0000_CCCC_0000_CCCC;
        x = x ^ t ^ (t << 14);
        let t = (x ^ (x >> 28)) & 0x0000_0000_F0F0_F0F0;
        x = x ^ t ^ (t << 28);
        Board(x)
    }

    /// The eight images of the board: itself, the quarter turn, the half turn,
    /// the three-quarter turn, the columns reversed, the rows reversed, and
    /// the reflections in the second and in the first diagonal.
    pub fn symmetries(&self) -> (r: [Board; 8])
        ensures
            r@ == self.spec_symmetries(),
            self.wf() ==> forall|k: int| 0 <= k < 8 ==> (#[trigger] r@[k]).wf(),
    {
        let transposed = self.transpose();
        let reverse_cols = self.reverse_cols();
        let reverse_rows = self.reverse_rows();
        let rotate_180 = self.rotate_180();
        let rotate_90 = transposed.reverse_rows();
        let rotate_270 = transposed.reverse_cols();
        let anti_transpose = transposed.rotate_180();
        let r = [
            *self,
            rotate_90,
            rotate_180,
            rotate_270,
            reverse_cols,
            reverse_rows,
            anti_transpose,
            transposed,
        ];
        assert(r@ =~= self.spec_symmetries());
        r
    }

    /// The canonical form of the board: the least of its eight images.
    pub fn normalize(&self) -> (r: Board)
        ensures
            r == self.spec_normalize(),
            exists|k: int| 0 <= k < 8 && r == self.spec_symmetries()[k],
            forall|k: int| 0 <= k < 8 ==> r.0 <= self.spec_symmetries()[k].0,
            self.wf() ==> r.wf() && r.canonical(),
    {
        let s = self.symmetries();
        let mut best = s[7];
        let mut i: usize = 7;
        while i > 0
            invariant
                i <= 7,
                s@ == self.spec_symmetries(),
                i == 7 ==> best == s@[7],
                i == 6 ==> best == min_board(s@[6], s@[7]),
                i == 5 ==> best == min_board(s@[5], min_board(s@[6], s@[7])),
                i == 4 ==> best == min_board(s@[4], min_board(s@[5], min_board(s@[6], s@[7]))),
                i == 3 ==> best == min_board(
                    s@[3],
                    min_board(s@[4], min_board(s@[5], min_board(s@[6], s@[7]))),
                ),
                i == 2 ==> best == min_board(
                    s@[2],
                    min_board(s@[3], min_board(s@[4], min_board(s@[5], min_board(s@[6], s@[7])))),
                ),
                i == 1 ==> best == min_board(
                    s@[1],
                    min_board(
                        s@[2],
                        min_board(s@[3], min_board(s@[4], min_board(s@[5], min_board(s@[6], s@[7])))),
                    ),
                ),
                i == 0 ==> best == self.spec_normalize(),
            decreases i,
        {
            i = i - 1;
            if s[i].0 <= best.0 {
                best = s[i];
            }
        }
        proof {
            self.lemma_normalize_least();
            if self.wf() {
                self.lemma_normalize_canonical();
            }
        }
        best
    }
}

} // verus!
