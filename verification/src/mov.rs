//! A single jump: the peg's cell, the cell it jumps over, and where it lands.

use crate::dir::{Dir, Idx};
use vstd::prelude::*;

verus! {

/// A jump of the peg at `pos` over `skip` to `target`, each a `(row, column)`
/// pair.
#[derive(Clone, Copy, Debug, Default, PartialEq, Eq)]
pub struct Move {
    pub pos: (Idx, Idx),
    pub skip: (Idx, Idx),
    pub target: (Idx, Idx),
}

impl Move {
    /// The jump from `pos` in direction `dir`.
    pub open spec fn jump(pos: (int, int), dir: Dir) -> Move {
        Move {
            pos: (pos.0 as i64, pos.1 as i64),
            skip: ((pos.0 + dir.dy()) as i64, (pos.1 + dir.dx()) as i64),
            target: ((pos.0 + 2 * dir.dy()) as i64, (pos.1 + 2 * dir.dx()) as i64),
        }
    }

    /// The jump that lands on `target` and came from two cells further in
    /// direction `dir`.
    pub open spec fn jump_back(target: (int, int), dir: Dir) -> Move {
        Move {
            pos: ((target.0 + 2 * dir.dy()) as i64, (target.1 + 2 * dir.dx()) as i64),
            skip: ((target.0 + dir.dy()) as i64, (target.1 + dir.dx()) as i64),
            target: (target.0 as i64, target.1 as i64),
        }
    }

    /// The three cells lie in a line, one step apart, in direction `dir`.
    pub open spec fn along(self, dir: Dir) -> bool {
        &&& self.skip.0 == self.pos.0 + dir.dy()
        &&& self.skip.1 == self.pos.1 + dir.dx()
        &&& self.target.0 == self.pos.0 + 2 * dir.dy()
        &&& self.target.1 == self.pos.1 + 2 * dir.dx()
    }

    /// The three cells lie in a line, one step apart, in one of the four
    /// directions.
    pub open spec fn is_jump(self) -> bool {
        exists|dir: Dir| self.along(dir)
    }

    /// The direction from `pos` towards `skip`: decided by the rows where they
    /// differ, else by the columns.
    pub open spec fn spec_dir(self) -> Dir {
        if self.pos.0 < self.skip.0 {
            Dir::South
        } else if self.pos.0 > self.skip.0 {
            Dir::North
        } else if self.pos.1 < self.skip.1 {
            Dir::East
        } else {
            Dir::West
        }
    }

    /// The direction of the move.
    pub fn dir(&self) -> (d: Dir)
        requires
            self.pos != self.skip,
        ensures
            d == self.spec_dir(),
            forall|e: Dir| self.along(e) ==> e == d,
    {
        if self.pos.0 < self.skip.0 {
            Dir::South
        } else if self.pos.0 > self.skip.0 {
            Dir::North
        } else if self.pos.1 < self.skip.1 {
            Dir::East
        } else {
            Dir::West
        }
    }
}

} // verus!
