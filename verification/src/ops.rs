//! The operators on words, for boards.

use crate::board::Board;
use vstd::prelude::*;

verus! {

impl std::ops::BitAnd for Board {
    type Output = Board;

    /// The pegs that both boards hold.
    fn bitand(self, rhs: Board) -> (r: Board) {
        Board(self.0 & rhs.0)
    }
}

impl vstd::std_specs::ops::BitAndSpecImpl for Board {
    open spec fn obeys_bitand_spec() -> bool {
        true
    }

    open spec fn bitand_req(self, rhs: Board) -> bool {
        true
    }

    open spec fn bitand_spec(self, rhs: Board) -> Board {
        Board(self.0 & rhs.0)
    }
}

impl std::ops::BitAnd<u64> for Board {
    type Output = Board;

    /// The pegs of the board that the word holds too.
    fn bitand(self, idx: u64) -> (r: Board) {
        Board(self.0 & idx)
    }
}

impl vstd::std_specs::ops::BitAndSpecImpl<u64> for Board {
    open spec fn obeys_bitand_spec() -> bool {
        true
    }

    open spec fn bitand_req(self, idx: u64) -> bool {
        true
    }

    open spec fn bitand_spec(self, idx: u64) -> Board {
        Board(self.0 & idx)
    }
}

impl std::ops::BitOr for Board {
    type Output = Board;

    /// The pegs that one of the boards holds.
    fn bitor(self, rhs: Board) -> (r: Board) {
        Board(self.0 | rhs.0)
    }
}

impl vstd::std_specs::ops::BitOrSpecImpl for Board {
    open spec fn obeys_bitor_spec() -> bool {
        true
    }

    open spec fn bitor_req(self, rhs: Board) -> bool {
        true
    }

    open spec fn bitor_spec(self, rhs: Board) -> Board {
        Board(self.0 | rhs.0)
    }
}

impl std::ops::BitXor for Board {
    type Output = Board;

    /// The pegs that exactly one of the boards holds.
    fn bitxor(self, rhs: Board) -> (r: Board) {
        Board(self.0 ^ rhs.0)
    }
}

impl vstd::std_specs::ops::BitXorSpecImpl for Board {
    open spec fn obeys_bitxor_spec() -> bool {
        true
    }

    open spec fn bitxor_req(self, rhs: Board) -> bool {
        true
    }

    open spec fn bitxor_spec(self, rhs: Board) -> Board {
        Board(self.0 ^ rhs.0)
    }
}

impl std::ops::Shl<u32> for Board {
    type Output = Board;

    /// The word shifted up by fewer than 64 bits.
    fn shl(self, rhs: u32) -> (r: Board) {
        Board(self.0 << rhs)
    }
}

impl vstd::std_specs::ops::ShlSpecImpl<u32> for Board {
    open spec fn obeys_shl_spec() -> bool {
        true
    }

    open spec fn shl_req(self, rhs: u32) -> bool {
        rhs < 64
    }

    open spec fn shl_spec(self, rhs: u32) -> Board {
        Board(self.0 << rhs)
    }
}

impl std::ops::Shr<u32> for Board {
    type Output = Board;

    /// The word shifted down by fewer than 64 bits.
    fn shr(self, rhs: u32) -> (r: Board) {
        Board(self.0 >> rhs)
    }
}

impl vstd::std_specs::ops::ShrSpecImpl<u32> for Board {
    open spec fn obeys_shr_spec() -> bool {
        true
    }

    open spec fn shr_req(self, rhs: u32) -> bool {
        rhs < 64
    }

    open spec fn shr_spec(self, rhs: u32) -> Board {
        Board(self.0 >> rhs)
    }
}

impl std::ops::Not for Board {
    type Output = Board;

    /// The word with every bit turned, those off the cross too.
    fn not(self) -> (r: Board) {
        Board(!self.0)
    }
}

impl vstd::std_specs::ops::NotSpecImpl for Board {
    open spec fn obeys_not_spec() -> bool {
        true
    }

    open spec fn not_req(self) -> bool {
        true
    }

    open spec fn not_spec(self) -> Board {
        Board(!self.0)
    }
}

impl std::ops::BitAndAssign for Board {
    /// Keeps the pegs that the other board holds too.
    fn bitand_assign(&mut self, rhs: Board)
        ensures
            final(self).0 == old(self).0 & rhs.0,
    {
        self.0 = self.0 & rhs.0;
    }
}

impl std::ops::BitOrAssign for Board {
    /// Adds the pegs of the other board.
    fn bitor_assign(&mut self, rhs: Board)
        ensures
            final(self).0 == old(self).0 | rhs.0,
    {
        self.0 = self.0 | rhs.0;
    }
}

} // verus!
