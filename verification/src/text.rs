//! Boards, moves and solutions as text.

use crate::board::{in_cross, Board};
use crate::dir::Dir;
use crate::mov::Move;
use crate::solution::Solution;
use vstd::prelude::*;

verus! {

/// `String::push` of std: the character is put at the end of the string.
/// Believed, not proved.
pub assume_specification[ String::push ](s: &mut String, ch: char)
    ensures
        final(s)@ == old(s)@.push(ch),
;

/// The character of a decimal digit.
pub open spec fn digit_char(d: int) -> char {
    if d == 0 {
        '0'
    } else if d == 1 {
        '1'
    } else if d == 2 {
        '2'
    } else if d == 3 {
        '3'
    } else if d == 4 {
        '4'
    } else if d == 5 {
        '5'
    } else if d == 6 {
        '6'
    } else if d == 7 {
        '7'
    } else if d == 8 {
        '8'
    } else {
        '9'
    }
}

/// The decimal digits of a natural number, without leading zeros.
pub open spec fn digits(n: nat) -> Seq<char>
    decreases n,
{
    if n < 10 {
        seq![digit_char(n as int)]
    } else {
        digits(n / 10).push(digit_char((n % 10) as int))
    }
}

/// An integer in decimal, with a minus sign where it is negative.
pub open spec fn decimal(v: int) -> Seq<char> {
    if v < 0 {
        seq!['-'] + digits((-v) as nat)
    } else {
        digits(v as nat)
    }
}

/// The character that stands for a cell: a blank outside the cross, `o` for
/// a peg, a dot for a hole.
pub open spec fn cell_char(b: Board, y: int, x: int) -> char {
    if !in_cross(y, x) {
        ' '
    } else if b.cell(y, x) {
        'o'
    } else {
        '.'
    }
}

/// The character at place `i` of the picture of a board: seven lines, each
/// of seven cells between blanks and a line feed.
pub open spec fn picture_char(b: Board, i: int) -> char {
    let y = i / 22;
    let k = i % 22;
    if k == 21 {
        '\n'
    } else if k % 3 == 1 {
        cell_char(b, y, k / 3)
    } else {
        ' '
    }
}

/// The picture of a board.
pub open spec fn picture(b: Board) -> Seq<char> {
    Seq::new(154, |i: int| picture_char(b, i))
}

/// A move as text: the row and the column of the peg, and the arrow of the
/// direction.
pub open spec fn move_text(m: Move) -> Seq<char> {
    decimal(m.pos.0 as int) + decimal(m.pos.1 as int) + seq![m.spec_dir().spec_symbol()]
}

/// The texts of moves, with a blank between each two.
pub open spec fn moves_text(moves: Seq<Move>) -> Seq<char>
    decreases moves.len(),
{
    if moves.len() == 0 {
        Seq::empty()
    } else if moves.len() == 1 {
        move_text(moves[0])
    } else {
        moves_text(moves.drop_last()) + seq![' '] + move_text(moves.last())
    }
}

fn digit(d: u64) -> (c: char)
    requires
        d < 10,
    ensures
        c == digit_char(d as int),
{
    if d == 0 {
        '0'
    } else if d == 1 {
        '1'
    } else if d == 2 {
        '2'
    } else if d == 3 {
        '3'
    } else if d == 4 {
        '4'
    } else if d == 5 {
        '5'
    } else if d == 6 {
        '6'
    } else if d == 7 {
        '7'
    } else if d == 8 {
        '8'
    } else {
        '9'
    }
}

/// Puts a natural number in decimal at the end of the string.
pub fn push_digits(s: &mut String, n: u64)
    ensures
        final(s)@ == old(s)@ + digits(n as nat),
    decreases n,
{
    if n >= 10 {
        push_digits(s, n / 10);
    }
    s.push(digit(n % 10));
    proof {
        if n >= 10 {
            assert(s@ =~= old(s)@ + digits(n as nat));
        } else {
            assert(s@ =~= old(s)@ + digits(n as nat));
        }
    }
}

/// Puts an integer in decimal at the end of the string.
pub fn push_decimal(s: &mut String, v: i64)
    ensures
        final(s)@ == old(s)@ + decimal(v as int),
{
    if v < 0 {
        s.push('-');
        let magnitude: u64 = if v == i64::MIN {
            0x8000_0000_0000_0000
        } else {
            (-v) as u64
        };
        push_digits(s, magnitude);
        proof {
            assert(s@ =~= old(s)@ + decimal(v as int));
        }
    } else {
        push_digits(s, v as u64);
    }
}

impl Dir {
    /// The arrow that stands for the direction.
    pub open spec fn spec_symbol(self) -> char {
        match self {
            Dir::North => '^',
            Dir::West => '<',
            Dir::East => '>',
            Dir::South => 'v',
        }
    }
}

impl Board {
    /// The picture of the board: seven lines of seven cells, `o` for a peg
    /// and a dot for a hole.
    pub fn render(&self) -> (r: String)
        ensures
            r@ == picture(*self),
    {
        let mut s = String::new();
        let mut y: i64 = 0;
        proof {
            assert(s@ =~= picture(*self).subrange(0, 0));
        }
        while y < Board::SIZE
            invariant
                0 <= y <= 7,
                s@ == picture(*self).subrange(0, 22 * y),
            decreases 7 - y,
        {
            let mut x: i64 = 0;
            while x < Board::SIZE
                invariant
                    0 <= x <= 7,
                    0 <= y < 7,
                    s@ == picture(*self).subrange(0, 22 * y + 3 * x),
                decreases 7 - x,
            {
                let occupied = self.occupied((y, x));
                let inbounds = Board::inbounds((y, x));
                let c = if !inbounds {
                    ' '
                } else if occupied {
                    'o'
                } else {
                    '.'
                };
                s.push(' ');
                s.push(c);
                s.push(' ');
                x = x + 1;
                proof {
                    let at = 22 * y + 3 * (x - 1);
                    assert(picture(*self)[at] == ' ');
                    assert(picture(*self)[at + 1] == c);
                    assert(picture(*self)[at + 2] == ' ');
                    assert(s@ =~= picture(*self).subrange(0, 22 * y + 3 * x));
                }
            }
            s.push('\n');
            y = y + 1;
            proof {
                assert(picture(*self)[22 * y - 1] == '\n');
                assert(s@ =~= picture(*self).subrange(0, 22 * y));
            }
        }
        proof {
            assert(picture(*self).subrange(0, 154) =~= picture(*self));
        }
        s
    }
}

impl Move {
    /// Puts the move as text at the end of the string.
    pub fn push_text(&self, s: &mut String)
        requires
            self.pos != self.skip,
        ensures
            final(s)@ == old(s)@ + move_text(*self),
    {
        push_decimal(s, self.pos.0);
        push_decimal(s, self.pos.1);
        let arrow = self.dir().symbol();
        s.push(arrow);
        proof {
            assert(s@ =~= old(s)@ + move_text(*self));
        }
    }

    /// The move as text: the row and the column of the peg, and the arrow of
    /// the direction.
    pub fn text(&self) -> (r: String)
        requires
            self.pos != self.skip,
        ensures
            r@ == move_text(*self),
    {
        let mut s = String::new();
        self.push_text(&mut s);
        proof {
            assert(s@ =~= move_text(*self));
        }
        s
    }
}

impl Solution {
    /// The moves as text, with a blank between each two.
    pub fn text(&self) -> (r: String)
        requires
            forall|i: int| 0 <= i < self@.len() ==> (#[trigger] self@[i]).pos != self@[i].skip,
        ensures
            r@ == moves_text(self@),
    {
        let moves = self.moves();
        let mut s = String::new();
        let mut i: usize = 0;
        proof {
            assert(moves@.subrange(0, 0) =~= Seq::<Move>::empty());
            assert(s@ =~= moves_text(moves@.subrange(0, 0)));
        }
        while i < moves.len()
            invariant
                0 <= i <= moves.len(),
                forall|k: int| 0 <= k < moves@.len() ==> (#[trigger] moves@[k]).pos != moves@[k].skip,
                s@ == moves_text(moves@.subrange(0, i as int)),
            decreases moves.len() - i,
        {
            if i > 0 {
                s.push(' ');
            }
            let m = moves[i];
            m.push_text(&mut s);
            i = i + 1;
            proof {
                let now = moves@.subrange(0, i as int);
                assert(now.drop_last() =~= moves@.subrange(0, i - 1));
                assert(now.last() == m);
                if i == 1 {
                    assert(now[0] == m);
                    assert(s@ =~= moves_text(now));
                } else {
                    assert(s@ =~= moves_text(now));
                }
            }
        }
        proof {
            assert(moves@.subrange(0, moves.len() as int) =~= moves@);
        }
        s
    }
}

} // verus!
