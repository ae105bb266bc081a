//! The four directions in which a peg can jump.

use vstd::prelude::*;

verus! {

/// Index of a row or a column of the board grid.
pub type Idx = i64;

/// A cardinal direction on the board. North is towards row 0, west towards
/// column 0.
#[derive(Clone, Copy, Debug, PartialEq, Eq, Structural)]
pub enum Dir {
    North,
    West,
    East,
    South,
}

impl Dir {
    /// The change of row that one step in this direction makes.
    pub open spec fn dy(self) -> int {
        match self {
            Dir::North => -1,
            Dir::South => 1,
            _ => 0,
        }
    }

    /// The change of column that one step in this direction makes.
    pub open spec fn dx(self) -> int {
        match self {
            Dir::West => -1,
            Dir::East => 1,
            _ => 0,
        }
    }

    /// The direction that leads back.
    pub open spec fn opposite(self) -> Dir {
        match self {
            Dir::North => Dir::South,
            Dir::West => Dir::East,
            Dir::East => Dir::West,
            Dir::South => Dir::North,
        }
    }

    /// The place of the direction in the order in which moves are listed.
    pub open spec fn number(self) -> int {
        match self {
            Dir::North => 0,
            Dir::West => 1,
            Dir::East => 2,
            Dir::South => 3,
        }
    }

    /// The directions in the order in which moves are listed.
    pub open spec fn spec_enumerate() -> Seq<Dir> {
        seq![Dir::North, Dir::West, Dir::East, Dir::South]
    }

    /// The two cells that a jump from `pos` in this direction passes: the one
    /// next to `pos`, and the one behind it.
    pub fn mov(&self, pos: (Idx, Idx)) -> (r: ((Idx, Idx), (Idx, Idx)))
        requires
            i64::MIN + 2 <= pos.0 <= i64::MAX - 2,
            i64::MIN + 2 <= pos.1 <= i64::MAX - 2,
        ensures
            r.0.0 == pos.0 + self.dy(),
            r.0.1 == pos.1 + self.dx(),
            r.1.0 == pos.0 + 2 * self.dy(),
            r.1.1 == pos.1 + 2 * self.dx(),
    {
        let (y, x) = pos;
        match self {
            Dir::North => ((y - 1, x), (y - 2, x)),
            Dir::West => ((y, x - 1), (y, x - 2)),
            Dir::East => ((y, x + 1), (y, x + 2)),
            Dir::South => ((y + 1, x), (y + 2, x)),
        }
    }

    /// All four directions: north, west, east, south.
    pub fn enumerate() -> (r: [Dir; 4])
        ensures
            r@ == Dir::spec_enumerate(),
    {
        let r = [Dir::North, Dir::West, Dir::East, Dir::South];
        assert(r@ =~= Dir::spec_enumerate());
        r
    }

    /// The arrow that stands for this direction in a move's text.
    pub fn symbol(&self) -> (c: char)
        ensures
            c == self.spec_symbol(),
    {
        match self {
            Dir::North => '^',
            Dir::West => '<',
            Dir::East => '>',
            Dir::South => 'v',
        }
    }
}

} // verus!
