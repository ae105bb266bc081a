//! The compressed form of a board: its 33 cells packed into the low 33 bits
//! of a word, row after row.

use crate::bits::bit;
use crate::board::{in_cross, lemma_full_bit, Board, FULL_MASK};
use vstd::prelude::*;

verus! {

/// The bit of the compressed form that stands for the cell `(y, x)` of the
/// cross: rows 0 and 1 take bits 0 to 5, rows 2 to 4 take bits 6 to 26, rows 5
/// and 6 take bits 27 to 32.
pub open spec fn compressed_index(y: int, x: int) -> int {
    if y == 0 {
        x - 2
    } else if y == 1 {
        x + 1
    } else if y == 2 {
        x + 6
    } else if y == 3 {
        x + 13
    } else if y == 4 {
        x + 20
    } else if y == 5 {
        x + 25
    } else {
        x + 28
    }
}

/// The rows of the cross moved together into the low 33 bits.
pub open spec fn pack(a: u64) -> u64 {
    ((a & 0x1cu64) >> 2) | ((a & 0x1c00u64) >> 7) | ((a & 0x7f_0000u64) >> 10) | ((a & 0x7f00_0000u64) >> 11) | ((a & 0x7f_0000_0000u64) >> 12) | ((a & 0x1c00_0000_0000u64) >> 15) | ((a & 0x1c_0000_0000_0000u64)
        >> 20)
}

/// The low 33 bits moved apart into the rows of the cross.
pub open spec fn unpack(c: u64) -> u64 {
    ((c & 0x7u64) << 2) | ((c & 0x38u64) << 7) | ((c & 0x1fc0u64) << 10) | ((c & 0xf_e000u64)
        << 11) | ((c & 0x7f0_0000u64) << 12) | ((c & 0x3800_0000u64) << 15) | ((c & 0x1_c000_0000u64) << 20)
}

/// By how many positions packing moves the bit `i` of a board down.
spec fn drop_of(i: u64) -> u64 {
    if i < 8 {
        2
    } else if i < 16 {
        7
    } else if i < 24 {
        10
    } else if i < 32 {
        11
    } else if i < 40 {
        12
    } else if i < 48 {
        15
    } else {
        20
    }
}

proof fn lemma_pack_bit(a: u64, i: u64)
    by (bit_vector)
    requires
        i < 64,
        bit(FULL_MASK, i as int),
    ensures
        i >= drop_of(i),
        i - drop_of(i) < 33,
        bit(pack(a), (i - drop_of(i)) as int) == bit(a, i as int),
{
}

proof fn lemma_unpack_bit(c: u64, i: u64)
    by (bit_vector)
    requires
        i < 64,
        bit(FULL_MASK, i as int),
    ensures
        bit(unpack(c), i as int) == bit(c, (i - drop_of(i)) as int),
{
}

proof fn lemma_pack_range(a: u64, c: u64)
    by (bit_vector)
    ensures
        pack(a) < 0x2_0000_0000,
        unpack(c) & !FULL_MASK == 0,
        pack(a) == pack(a & FULL_MASK),
        unpack(c) == unpack(c & 0x1_ffff_ffff),
{
}

proof fn lemma_pack_unpack(a: u64, c: u64)
    by (bit_vector)
    ensures
        a & !FULL_MASK == 0 ==> unpack(pack(a)) == a,
        c < 0x2_0000_0000 ==> pack(unpack(c)) == c,
{
}

proof fn lemma_pack_order(a: u64, b: u64)
    by (bit_vector)
    requires
        a & !FULL_MASK == 0,
        b & !FULL_MASK == 0,
    ensures
        (a < b) == (pack(a) < pack(b)),
{
}

impl Board {
    /// The compressed form of the board.
    pub open spec fn spec_compressed(self) -> u64 {
        pack(self.0)
    }

    /// The board that a compressed form stands for.
    pub open spec fn spec_from_compressed(c: u64) -> Board {
        Board(unpack(c))
    }

    /// The compressed form has one bit for each cell of the cross, and no
    /// other.
    pub proof fn lemma_compressed_bits(self)
        ensures
            self.spec_compressed() < 0x2_0000_0000,
            forall|y: int, x: int|
                in_cross(y, x) ==> bit(self.spec_compressed(), #[trigger] compressed_index(y, x))
                    == self.cell(y, x),
    {
        lemma_pack_range(self.0, 0);
        assert forall|y: int, x: int| in_cross(y, x) implies bit(
            self.spec_compressed(),
            #[trigger] compressed_index(y, x),
        ) == self.cell(y, x) by {
            let i = (8 * y + x) as u64;
            lemma_full_bit(i);
            lemma_pack_bit(self.0, i);
        }
    }

    /// The board of a compressed form is well formed, and each cell of the
    /// cross holds what its bit says.
    pub proof fn lemma_from_compressed_cells(c: u64)
        ensures
            Board::spec_from_compressed(c).wf(),
            forall|y: int, x: int|
                in_cross(y, x) ==> #[trigger] Board::spec_from_compressed(c).cell(y, x) == bit(
                    c,
                    compressed_index(y, x),
                ),
    {
        lemma_pack_range(0, c);
        assert forall|y: int, x: int| in_cross(y, x) implies #[trigger] Board::spec_from_compressed(
            c,
        ).cell(y, x) == bit(c, compressed_index(y, x)) by {
            let i = (8 * y + x) as u64;
            lemma_full_bit(i);
            lemma_unpack_bit(c, i);
        }
    }

    /// Compressing a well-formed board and expanding it again gives the board
    /// back.
    pub proof fn lemma_compress_roundtrip(self)
        requires
            self.wf(),
        ensures
            Board::spec_from_compressed(self.spec_compressed()) == self,
    {
        lemma_pack_unpack(self.0, 0);
    }

    /// Expanding a compressed form and compressing it again gives the form
    /// back.
    pub proof fn lemma_expand_roundtrip(c: u64)
        requires
            c < 0x2_0000_0000,
        ensures
            Board::spec_from_compressed(c).spec_compressed() == c,
    {
        lemma_pack_unpack(0, c);
    }

    /// Well-formed boards are ordered as their compressed forms are.
    pub proof fn lemma_compress_monotonic(self, other: Board)
        requires
            self.wf(),
            other.wf(),
        ensures
            (self.0 < other.0) == (self.spec_compressed() < other.spec_compressed()),
            (self == other) == (self.spec_compressed() == other.spec_compressed()),
    {
        lemma_pack_order(self.0, other.0);
        lemma_pack_order(other.0, self.0);
    }

    /// The compressed form of the board: bit `compressed_index(y, x)` says
    /// whether the cell `(y, x)` of the cross holds a peg. Pegs outside the
    /// cross are left out.
    pub fn to_compressed_repr(&self) -> (r: u64)
        ensures
            r == self.spec_compressed(),
            r < 0x2_0000_0000,
            forall|y: int, x: int|
                in_cross(y, x) ==> bit(r, #[trigger] compressed_index(y, x)) == self.cell(y, x),
    {
        proof {
            self.lemma_compressed_bits();
        }
        let board = self.0;
        ((board & 0x1cu64) >> 2) | ((board & 0x1c00u64) >> 7) | ((board & 0x7f_0000u64) >> 10)
            | ((board & 0x7f00_0000u64) >> 11) | ((board & 0x7f_0000_0000u64) >> 12) | ((board & 0x1c00_0000_0000u64) >> 15) | ((board & 0x1c_0000_0000_0000u64) >> 20)
    }

    /// The board that a compressed form stands for. Bits above the low 33 are
    /// ignored.
    pub fn from_compressed_repr(compressed: u64) -> (r: Board)
        ensures
            r == Board::spec_from_compressed(compressed),
            r.wf(),
            forall|y: int, x: int|
                in_cross(y, x) ==> #[trigger] r.cell(y, x) == bit(
                    compressed,
                    compressed_index(y, x),
                ),
            compressed < 0x2_0000_0000 ==> r.spec_compressed() == compressed,
    {
        proof {
            Board::lemma_from_compressed_cells(compressed);
            if compressed < 0x2_0000_0000 {
                Board::lemma_expand_roundtrip(compressed);
            }
        }
        let board = ((compressed & 0x7u64) << 2) | ((compressed & 0x38u64) << 7) | ((compressed & 0x1fc0u64) << 10) | ((compressed & 0xf_e000u64) << 11) | ((compressed & 0x7f0_0000u64)
            << 12) | ((compressed & 0x3800_0000u64) << 15) | ((compressed & 0x1_c000_0000u64) << 20);
        Board(board)
    }
}

} // verus!
