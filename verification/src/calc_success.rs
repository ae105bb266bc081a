//! What the chance of winning by random moves is made of: for each board, how
//! many moves there are, and which of them lead to a solvable board. The same
//! moves are the hints that a player can be given.
//!
//! The chance of a board is the mean, over its legal moves, of the chance of
//! the board that the move gives, where an unsolvable board counts as zero.
//! The chances themselves are fractions that only floating point can hold,
//! so they are worked out by the caller, layer by layer from two pegs up.

use crate::board::Board;
use crate::calc_naive::canon_after;
use crate::hash::BoardSet;
use crate::mov::Move;
use vstd::prelude::*;

verus! {

/// The canonical forms of the boards that the legal moves of a board give,
/// move by move.
pub open spec fn canonical_successors(board: Board) -> Seq<Board> {
    board.spec_legal_moves().map_values(|m: Move| canon_after(board, m))
}

/// What a random move on a board can lead to: the number of legal moves, and
/// for each move that gives a feasible board the canonical form of that board.
pub struct Outcomes {
    /// The number of legal moves.
    pub moves: usize,
    /// The feasible boards that the moves give, in the order of the moves. A
    /// board that several moves give stands once for each.
    pub feasible: Vec<Board>,
}

/// The set of the boards of a list.
pub fn feasible_set(feasible: &[Board]) -> (r: BoardSet)
    ensures
        r@ == feasible@.to_set(),
{
    let mut set = BoardSet::new();
    let mut i: usize = 0;
    proof {
        assert(feasible@.subrange(0, 0).to_set() =~= Set::<Board>::empty());
    }
    while i < feasible.len()
        invariant
            0 <= i <= feasible.len(),
            set@ == feasible@.subrange(0, i as int).to_set(),
        decreases feasible.len() - i,
    {
        set.insert(feasible[i]);
        proof {
            let prefix = feasible@.subrange(0, i as int);
            assert(feasible@.subrange(0, i + 1) =~= prefix.push(feasible@[i as int]));
            prefix.lemma_push_to_set_commute(feasible@[i as int]);
        }
        i = i + 1;
    }
    proof {
        assert(feasible@.subrange(0, feasible.len() as int) =~= feasible@);
    }
    set
}

/// The boards of a list that hold `pegs` pegs, in the order of the list.
pub fn boards_with_pegs(feasible: &[Board], pegs: u64) -> (r: Vec<Board>)
    ensures
        r@ == feasible@.filter(|b: Board| b@.len() == pegs),
{
    let ghost pred = |b: Board| b@.len() == pegs;
    let mut r: Vec<Board> = Vec::new();
    let mut i: usize = 0;
    proof {
        assert(feasible@.subrange(0, 0).filter(pred) =~= Seq::<Board>::empty()) by {
            reveal(Seq::filter);
        }
    }
    while i < feasible.len()
        invariant
            0 <= i <= feasible.len(),
            pred == |b: Board| b@.len() == pegs,
            r@ == feasible@.subrange(0, i as int).filter(pred),
        decreases feasible.len() - i,
    {
        let b = feasible[i];
        proof {
            let prefix = feasible@.subrange(0, i as int);
            assert(feasible@.subrange(0, i + 1) =~= prefix.push(b));
            prefix.lemma_filter_push(b, pred);
        }
        if b.count_balls() == pegs {
            r.push(b);
        }
        i = i + 1;
    }
    proof {
        assert(feasible@.subrange(0, feasible.len() as int) =~= feasible@);
    }
    r
}

/// What a random move on the board can lead to, given the set of the feasible
/// boards.
pub fn random_move_outcomes(board: &Board, feasible: &BoardSet) -> (r: Outcomes)
    requires
        board.wf(),
    ensures
        r.moves == board.spec_legal_moves().len(),
        r.feasible@ == canonical_successors(*board).filter(|c: Board| feasible@.contains(c)),
        forall|i: int|
            0 <= i < r.feasible.len() ==> (#[trigger] r.feasible[i]).wf() && r.feasible[i]@.len()
                + 1 == board@.len(),
{
    let ghost pred = |c: Board| feasible@.contains(c);
    let legal_moves = board.get_legal_moves();
    let mut found: Vec<Board> = Vec::new();
    let mut i: usize = 0;
    proof {
        assert(canonical_successors(*board).subrange(0, 0).filter(pred) =~= Seq::<Board>::empty())
            by {
            reveal(Seq::filter);
        }
    }
    while i < legal_moves.len()
        invariant
            0 <= i <= legal_moves.len(),
            board.wf(),
            legal_moves@ == board.spec_legal_moves(),
            forall|m: Move| legal_moves@.contains(m) ==> board.legal(m),
            pred == |c: Board| feasible@.contains(c),
            found@ == canonical_successors(*board).subrange(0, i as int).filter(pred),
            forall|k: int|
                0 <= k < found.len() ==> (#[trigger] found[k]).wf() && found[k]@.len() + 1
                    == board@.len(),
        decreases legal_moves.len() - i,
    {
        let mov = legal_moves[i];
        proof {
            assert(legal_moves@[i as int] == mov);
            assert(legal_moves@.contains(mov));
            assert(board.legal(mov));
            crate::calc_naive::lemma_canon_after(*board, mov);
        }
        let c_new = board.mov(mov).normalize();
        proof {
            let all = canonical_successors(*board);
            let prefix = all.subrange(0, i as int);
            assert(all.subrange(0, i + 1) =~= prefix.push(c_new));
            prefix.lemma_filter_push(c_new, pred);
        }
        if feasible.contains(&c_new) {
            found.push(c_new);
        }
        i = i + 1;
    }
    proof {
        let all = canonical_successors(*board);
        assert(all.subrange(0, all.len() as int) =~= all);
    }
    Outcomes { moves: legal_moves.len(), feasible: found }
}

/// The hints for a board: its legal moves that give a feasible board, in the
/// order of the legal moves.
pub fn hints(board: &Board, feasible: &BoardSet) -> (r: Vec<Move>)
    ensures
        r@ == board.spec_legal_moves().filter(
            |m: Move| feasible@.contains(canon_after(*board, m)),
        ),
        forall|i: int| 0 <= i < r.len() ==> board.legal(#[trigger] r[i]),
{
    let ghost pred = |m: Move| feasible@.contains(canon_after(*board, m));
    let legal_moves = board.get_legal_moves();
    let mut good: Vec<Move> = Vec::new();
    let mut i: usize = 0;
    proof {
        assert(legal_moves@.subrange(0, 0).filter(pred) =~= Seq::<Move>::empty()) by {
            reveal(Seq::filter);
        }
    }
    while i < legal_moves.len()
        invariant
            0 <= i <= legal_moves.len(),
            legal_moves@ == board.spec_legal_moves(),
            forall|m: Move| legal_moves@.contains(m) ==> board.legal(m),
            pred == |m: Move| feasible@.contains(canon_after(*board, m)),
            good@ == legal_moves@.subrange(0, i as int).filter(pred),
            forall|k: int| 0 <= k < good.len() ==> board.legal(#[trigger] good[k]),
        decreases legal_moves.len() - i,
    {
        let mov = legal_moves[i];
        proof {
            assert(legal_moves@[i as int] == mov);
            assert(legal_moves@.contains(mov));
            assert(board.legal(mov));
            reveal(canon_after);
            let prefix = legal_moves@.subrange(0, i as int);
            assert(legal_moves@.subrange(0, i + 1) =~= prefix.push(mov));
            prefix.lemma_filter_push(mov, pred);
        }
        if feasible.contains(&board.mov(mov).normalize()) {
            good.push(mov);
        }
        i = i + 1;
    }
    proof {
        assert(legal_moves@.subrange(0, legal_moves.len() as int) =~= legal_moves@);
    }
    good
}

} // verus!
