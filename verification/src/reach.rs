//! Which boards lead to which: by a list of legal moves, and in particular to
//! the goal.

use crate::board::{at, in_cross, Board};
use crate::dir::Dir;
use crate::mov::Move;
use crate::solution::replay;
use vstd::prelude::*;

verus! {

/// Playing `moves` one after the other on `start` is legal and gives `end`.
pub open spec fn leads(start: Board, moves: Seq<Move>, end: Board) -> bool {
    replay(start, moves) matches Some(boards) && boards.last() == end
}

/// The goal can be reached from the board by legal moves.
pub open spec fn can_win(b: Board) -> bool {
    exists|moves: Seq<Move>| leads(b, moves, Board::spec_solved())
}

/// One of the five pivot cells holds a peg.
pub open spec fn has_pivot(b: Board) -> bool {
    b.cell(1, 3) || b.cell(3, 1) || b.cell(3, 3) || b.cell(3, 5) || b.cell(5, 3)
}

/// `(y, x)` is one of the five pivot cells.
pub open spec fn is_pivot(y: int, x: int) -> bool {
    (y == 1 && x == 3) || (y == 3 && x == 1) || (y == 3 && x == 3) || (y == 3 && x == 5) || (y == 5
        && x == 3)
}

/// No moves lead from a board to itself, and a list of moves with one more
/// at its end leads one legal move further.
pub proof fn lemma_leads_push(start: Board, moves: Seq<Move>, end: Board, m: Move)
    requires
        leads(start, moves, end),
        end.legal(m),
    ensures
        leads(start, moves.push(m), end.spec_mov(m)),
        leads(start, Seq::<Move>::empty(), start),
{
    assert(moves.push(m).drop_last() =~= moves);
}

/// A list of moves that leads somewhere begins with a legal move, and the
/// rest leads there from the board that this move gives.
pub proof fn lemma_leads_first(start: Board, moves: Seq<Move>, end: Board)
    requires
        leads(start, moves, end),
        moves.len() > 0,
    ensures
        start.legal(moves[0]),
        leads(start.spec_mov(moves[0]), moves.drop_first(), end),
    decreases moves.len(),
{
    let init = moves.drop_last();
    let boards = replay(start, init)->Some_0;
    let none = Seq::<Move>::empty();
    if init.len() == 0 {
        assert(moves.drop_first() =~= none);
        assert(init =~= none);
        assert(moves.last() == moves[0]);
        assert(replay(start, none) == Some(seq![start]));
        assert(replay(start.spec_mov(moves[0]), none) == Some(seq![start.spec_mov(moves[0])]));
    } else {
        lemma_leads_first(start, init, boards.last());
        assert(init[0] == moves[0]);
        assert(moves.drop_first().drop_last() =~= init.drop_first());
        assert(moves.drop_first().last() == moves.last());
    }
}

/// A legal move in front of a list of moves: the list leads from the board
/// that the move gives to where the longer list leads from the board.
pub proof fn lemma_leads_prepend(start: Board, m: Move, moves: Seq<Move>, end: Board)
    requires
        start.legal(m),
        leads(start.spec_mov(m), moves, end),
    ensures
        leads(start, seq![m] + moves, end),
    decreases moves.len(),
{
    let all = seq![m] + moves;
    let none = Seq::<Move>::empty();
    if moves.len() == 0 {
        assert(all.drop_last() =~= none);
        assert(all.last() == m);
        assert(moves =~= none);
        assert(replay(start, none) == Some(seq![start]));
        assert(replay(start.spec_mov(m), none) == Some(seq![start.spec_mov(m)]));
        assert(replay(start, all) == Some(seq![start].push(start.spec_mov(m))));
    } else {
        let init = moves.drop_last();
        let boards = replay(start.spec_mov(m), init)->Some_0;
        lemma_leads_prepend(start, m, init, boards.last());
        assert(all.drop_last() =~= seq![m] + init);
        assert(all.last() == moves.last());
        let before = replay(start, seq![m] + init)->Some_0;
        assert(before.last() == boards.last());
        assert(replay(start, all) == Some(before.push(before.last().spec_mov(moves.last()))));
    }
}

/// The goal can be reached from a board exactly when the board is the goal or
/// a legal move gives a board from which the goal can be reached.
pub proof fn lemma_win_step(b: Board)
    ensures
        can_win(b) <==> b == Board::spec_solved() || exists|m: Move|
            b.legal(m) && can_win(#[trigger] b.spec_mov(m)),
{
    let goal = Board::spec_solved();
    if can_win(b) && b != goal {
        let moves = choose|moves: Seq<Move>| leads(b, moves, goal);
        lemma_leads_first(b, moves, goal);
        assert(leads(b.spec_mov(moves[0]), moves.drop_first(), goal));
        assert(can_win(b.spec_mov(moves[0])));
    }
    if b == goal {
        assert(leads(b, Seq::<Move>::empty(), goal));
    }
    if exists|m: Move| b.legal(m) && can_win(#[trigger] b.spec_mov(m)) {
        let m = choose|m: Move| b.legal(m) && can_win(#[trigger] b.spec_mov(m));
        let rest = choose|rest: Seq<Move>| leads(b.spec_mov(m), rest, goal);
        lemma_leads_prepend(b, m, rest, goal);
    }
}

/// A jump that lands on a pivot cell starts from a pivot cell.
pub proof fn lemma_pivot_jump(m: Move)
    requires
        m.is_jump(),
        in_cross(m.pos.0 as int, m.pos.1 as int),
        is_pivot(m.target.0 as int, m.target.1 as int),
    ensures
        is_pivot(m.pos.0 as int, m.pos.1 as int),
{
    let dir = choose|dir: Dir| m.along(dir);
    assert(m.along(dir));
}

/// A legal move puts no peg on a pivot cell where there was none on any.
pub proof fn lemma_pivot_kept(b: Board, m: Move)
    requires
        b.legal(m),
        !has_pivot(b),
    ensures
        !has_pivot(b.spec_mov(m)),
{
    b.lemma_mov_cells(m);
    let after = b.spec_mov(m);
    assert forall|y: int, x: int| is_pivot(y, x) implies !#[trigger] after.cell(y, x) by {
        assert(after.cell(y, x) == after@.contains((y, x)));
        assert(b.cell(y, x) == b@.contains((y, x)));
        if (y, x) == at(m.target) {
            lemma_pivot_jump(m);
        }
    }
}

/// From a board without a peg on a pivot cell the goal cannot be reached.
pub proof fn lemma_no_pivot_no_win(b: Board)
    requires
        !has_pivot(b),
    ensures
        !can_win(b),
{
    if can_win(b) {
        let moves = choose|moves: Seq<Move>| leads(b, moves, Board::spec_solved());
        lemma_pivot_leads(b, moves, Board::spec_solved());
        Board::lemma_solved_cells();
    }
}

proof fn lemma_pivot_leads(b: Board, moves: Seq<Move>, end: Board)
    requires
        !has_pivot(b),
        leads(b, moves, end),
    ensures
        !has_pivot(end),
    decreases moves.len(),
{
    if moves.len() > 0 {
        let init = moves.drop_last();
        let boards = replay(b, init)->Some_0;
        lemma_pivot_leads(b, init, boards.last());
        lemma_pivot_kept(boards.last(), moves.last());
    }
}

/// A legal move takes one peg off a well-formed board and leaves it well
/// formed.
pub proof fn lemma_move_len(b: Board, m: Move)
    requires
        b.legal(m),
    ensures
        b.spec_mov(m)@.len() + 1 == b@.len(),
        b@.len() >= 2,
        b.wf() ==> b.spec_mov(m).wf(),
{
    b.lemma_mov_cells(m);
    b.lemma_view_len();
    let after = b.spec_mov(m);
    after.lemma_view_len();
    assert(after@.contains(at(m.target)));
    if after@.len() == 0 {
        after@.lemma_len0_is_empty();
    }
}

/// Each move takes one peg: a list of moves that leads from a board to another
/// is as long as the first board has pegs more than the second.
pub proof fn lemma_leads_len(start: Board, moves: Seq<Move>, end: Board)
    requires
        leads(start, moves, end),
    ensures
        start@.len() == end@.len() + moves.len(),
    decreases moves.len(),
{
    if moves.len() > 0 {
        let init = moves.drop_last();
        let boards = replay(start, init)->Some_0;
        lemma_leads_len(start, init, boards.last());
        lemma_move_len(boards.last(), moves.last());
    }
}

} // verus!
