//! A solution in the making: the moves played so far, at most 31.

use crate::board::Board;
use crate::mov::Move;
use vstd::prelude::*;

verus! {

/// The moves played so far, in their order. Its view is the list of these
/// moves.
pub struct Solution {
    steps: [Move; 31],
    count: usize,
}

/// The boards that playing `moves` one after the other on `start` gives, the
/// start included, or nothing where a move is not legal.
pub open spec fn replay(start: Board, moves: Seq<Move>) -> Option<Seq<Board>>
    decreases moves.len(),
{
    if moves.len() == 0 {
        Some(seq![start])
    } else {
        match replay(start, moves.drop_last()) {
            Some(boards) => if boards.last().legal(moves.last()) {
                Some(boards.push(boards.last().spec_mov(moves.last())))
            } else {
                None
            },
            None => None,
        }
    }
}

/// Playing `moves` on the board of the start leads to the goal.
pub open spec fn solves(moves: Seq<Move>) -> bool {
    replay(Board::spec_default(), moves) matches Some(boards) && boards.last()
        == Board::spec_solved()
}

impl View for Solution {
    type V = Seq<Move>;

    closed spec fn view(&self) -> Seq<Move> {
        self.steps@.subrange(0, self.count as int)
    }
}

impl Solution {
    #[verifier::type_invariant]
    spec fn inv(self) -> bool {
        self.count <= 31
    }

    /// The solution without a move.
    pub fn new() -> (r: Solution)
        ensures
            r@ == Seq::<Move>::empty(),
    {
        let nothing = Move { pos: (0, 0), skip: (0, 0), target: (0, 0) };
        let r = Solution { steps: [nothing; 31], count: 0 };
        assert(r@ =~= Seq::<Move>::empty());
        r
    }

    /// Adds a move at the end.
    pub fn push(&mut self, mov: Move)
        requires
            old(self)@.len() < 31,
        ensures
            final(self)@ == old(self)@.push(mov),
    {
        proof {
            use_type_invariant(&*self);
        }
        let ghost before = self@;
        self.steps[self.count] = mov;
        self.count += 1;
        assert(self@ =~= before.push(mov));
    }

    /// Takes the last move off and returns it.
    pub fn pop(&mut self) -> (r: Move)
        requires
            old(self)@.len() > 0,
        ensures
            r == old(self)@.last(),
            final(self)@ == old(self)@.drop_last(),
    {
        proof {
            use_type_invariant(&*self);
        }
        let ghost before = self@;
        self.count -= 1;
        assert(self@ =~= before.drop_last());
        self.steps[self.count]
    }

    /// The number of moves that a solution can hold.
    pub fn total(&self) -> (r: usize)
        ensures
            r == 31,
    {
        self.steps.len()
    }

    /// The number of moves.
    pub fn len(&self) -> (r: usize)
        ensures
            r == self@.len(),
            r <= 31,
    {
        proof {
            use_type_invariant(self);
        }
        self.count
    }

    /// Whether no move has been played.
    pub fn is_empty(&self) -> (r: bool)
        ensures
            r == (self@.len() == 0),
    {
        self.len() == 0
    }

    /// The moves in their order.
    pub fn moves(&self) -> (r: Vec<Move>)
        ensures
            r@ == self@,
    {
        proof {
            use_type_invariant(self);
        }
        let mut r: Vec<Move> = Vec::new();
        let mut i: usize = 0;
        while i < self.count
            invariant
                0 <= i <= self.count <= 31,
                r@ == self.steps@.subrange(0, i as int),
            decreases self.count - i,
        {
            r.push(self.steps[i]);
            i = i + 1;
            proof {
                assert(r@ =~= self.steps@.subrange(0, i as int));
            }
        }
        r
    }

    /// The boards that playing the moves one after the other on `start`
    /// gives, the start included, or nothing where a move cannot be played.
    pub fn trace(&self, start: Board) -> (r: Option<Vec<Board>>)
        ensures
            match r {
                Some(boards) => replay(start, self@) == Some(boards@),
                None => replay(start, self@) is None,
            },
    {
        proof {
            use_type_invariant(self);
        }
        let mut boards: Vec<Board> = Vec::new();
        boards.push(start);
        let mut board = start;
        let mut i: usize = 0;
        while i < self.count
            invariant
                0 <= i <= self.count <= 31,
                boards@.len() > 0,
                boards@.last() == board,
                replay(start, self.steps@.subrange(0, i as int)) == Some(boards@),
            decreases self.count - i,
        {
            let m = self.steps[i];
            proof {
                assert(self.steps@.subrange(0, i + 1).drop_last() =~= self.steps@.subrange(
                    0,
                    i as int,
                ));
            }
            let playable = board.can_play(m);
            if !playable {
                proof {
                    assert(!board.legal(m));
                    assert(self.steps@.subrange(0, i + 1).last() == m);
                    assert(self@.subrange(0, i + 1) =~= self.steps@.subrange(0, i + 1));
                    assert(replay(start, self@.subrange(0, i + 1)) is None);
                    lemma_replay_prefix(start, self@, i + 1);
                }
                return None;
            }
            board = board.mov(m);
            boards.push(board);
            i = i + 1;
        }
        proof {
            assert(self@ =~= self.steps@.subrange(0, i as int));
        }
        Some(boards)
    }

    /// Whether playing the moves on the board of the start leads to the goal.
    pub fn is_complete(&self) -> (r: bool)
        ensures
            r == solves(self@),
    {
        match self.trace(Board::default()) {
            Some(boards) => boards[boards.len() - 1].is_solved(),
            None => false,
        }
    }
}

impl Clone for Solution {
    /// A copy with the same moves.
    fn clone(&self) -> (r: Solution)
        ensures
            r@ == self@,
    {
        proof {
            use_type_invariant(self);
        }
        Solution { steps: self.steps, count: self.count }
    }
}

impl Default for Solution {
    /// The solution without a move.
    fn default() -> (r: Solution)
        ensures
            r@ == Seq::<Move>::empty(),
    {
        Solution::new()
    }
}

/// Moves that cannot be replayed up to some point cannot be replayed in full.
pub proof fn lemma_replay_prefix(start: Board, moves: Seq<Move>, n: int)
    requires
        0 <= n <= moves.len(),
        replay(start, moves.subrange(0, n)) is None,
    ensures
        replay(start, moves) is None,
    decreases moves.len() - n,
{
    if n < moves.len() {
        assert(moves.subrange(0, n + 1).drop_last() =~= moves.subrange(0, n));
        lemma_replay_prefix(start, moves, n + 1);
    } else {
        assert(moves.subrange(0, n) =~= moves);
    }
}

} // verus!
