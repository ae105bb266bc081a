//! All solvable boards, found by trying every move in depth and remembering
//! what each canonical board turned out to be.

use crate::board::Board;
use crate::expand::successor;
use crate::hash::BoardSet;
use crate::mov::Move;
use crate::reach::lemma_move_len;
use crate::solver::lemma_link_good;
use crate::theory::{lemma_solvable_boards_of_the_game, solvable_boards_of_the_game};
use vstd::prelude::*;

verus! {

/// The canonical form of the board that the move gives.
#[verifier::opaque]
pub open spec fn canon_after(b: Board, m: Move) -> Board {
    b.spec_mov(m).spec_normalize()
}

/// `c` is a successor of `b`: the canonical form of what one legal move on
/// `b` gives.
#[verifier::opaque]
pub open spec fn follows(b: Board, c: Board) -> bool {
    successor(b, c)
}

/// Each board of the list but the first follows the one before it.
pub open spec fn is_path(path: Seq<Board>) -> bool {
    &&& path.len() > 0
    &&& forall|i: int| 0 <= i < path.len() - 1 ==> follows(#[trigger] path[i], path[i + 1])
}

/// From `a`, moves lead to `b`, where after each move the board is put into
/// canonical form.
pub open spec fn reaches(a: Board, b: Board) -> bool {
    exists|path: Seq<Board>| is_path(path) && path.first() == a && path.last() == b
}

/// The board leads to the goal, where after each move the board is put into
/// canonical form.
pub open spec fn wins(b: Board) -> bool {
    reaches(b, Board::spec_solved())
}

/// The boards that `start` leads to and that lead to the goal, where after
/// each move the board is put into canonical form.
pub open spec fn solvable_from(start: Board) -> Set<Board> {
    Set::new(|b: Board| reaches(start, b) && wins(b))
}

/// What is known of the boards looked at so far: each is well formed and
/// `start` leads to it, each of its successors has been looked at too, and it
/// is among the solvable ones exactly when it leads to the goal. `found`
/// lists the solvable ones, each once.
#[verifier::opaque]
pub open spec fn consistent(
    start: Board,
    checked: Set<Board>,
    solvable: Set<Board>,
    found: Seq<Board>,
) -> bool {
    &&& found.no_duplicates()
    &&& found.to_set() == solvable
    &&& forall|b: Board| #[trigger] solvable.contains(b) ==> checked.contains(b)
    &&& forall|b: Board| #[trigger]
        checked.contains(b) ==> b.wf() && reaches(start, b) && (solvable.contains(b) <==> wins(b))
    &&& forall|b: Board, c: Board|
        checked.contains(b) && #[trigger] follows(b, c) ==> checked.contains(c)
}

/// What follows a board are the canonical forms of what its legal moves give.
pub proof fn lemma_follows(b: Board, c: Board)
    ensures
        follows(b, c) <==> exists|m: Move| b.legal(m) && c == #[trigger] canon_after(b, m),
        follows(b, c) <==> successor(b, c),
{
    reveal(follows);
    reveal(canon_after);
    if follows(b, c) {
        let m = choose|m: Move| b.legal(m) && c == b.spec_mov(m).spec_normalize();
        assert(b.legal(m) && c == canon_after(b, m));
    }
    if exists|m: Move| b.legal(m) && c == #[trigger] canon_after(b, m) {
        let m = choose|m: Move| b.legal(m) && c == #[trigger] canon_after(b, m);
        assert(b.legal(m) && c == b.spec_mov(m).spec_normalize());
    }
}

/// What a legal move gives, in canonical form, follows the board; it is well
/// formed when the board is, and holds one peg less.
pub proof fn lemma_canon_after(b: Board, m: Move)
    requires
        b.wf(),
        b.legal(m),
    ensures
        follows(b, canon_after(b, m)),
        canon_after(b, m).wf(),
        canon_after(b, m)@.len() + 1 == b@.len(),
        canon_after(b, m) == b.spec_mov(m).spec_normalize(),
{
    lemma_follows(b, canon_after(b, m));
    reveal(follows);
    reveal(canon_after);
    lemma_link_good(b, canon_after(b, m), true);
}

/// A board leads to itself.
pub proof fn lemma_reaches_self(a: Board)
    ensures
        reaches(a, a),
{
    let path = seq![a];
    assert(is_path(path) && path.first() == a && path.last() == a);
}

/// Where `a` leads to `b`, it leads to all that follows `b`.
pub proof fn lemma_reaches_push(a: Board, b: Board, c: Board)
    requires
        reaches(a, b),
        follows(b, c),
    ensures
        reaches(a, c),
{
    let path = choose|path: Seq<Board>| is_path(path) && path.first() == a && path.last() == b;
    let longer = path.push(c);
    assert forall|i: int| 0 <= i < longer.len() - 1 implies follows(
        #[trigger] longer[i],
        longer[i + 1],
    ) by {
        if i < path.len() - 1 {
            assert(follows(path[i], path[i + 1]));
        }
    }
    assert(is_path(longer) && longer.first() == a && longer.last() == c);
}

/// A board that leads to another and is not that board is followed by a
/// board that leads there.
pub proof fn lemma_reaches_first(a: Board, b: Board) -> (c: Board)
    requires
        reaches(a, b),
        a != b,
    ensures
        follows(a, c),
        reaches(c, b),
{
    let path = choose|path: Seq<Board>| is_path(path) && path.first() == a && path.last() == b;
    let rest = path.drop_first();
    assert forall|i: int| 0 <= i < rest.len() - 1 implies follows(
        #[trigger] rest[i],
        rest[i + 1],
    ) by {
        assert(follows(path[i + 1], path[i + 2]));
    }
    assert(follows(path[0], path[1]));
    assert(is_path(rest) && rest.first() == path[1] && rest.last() == b);
    path[1]
}

/// A board leads where a board that follows it leads.
pub proof fn lemma_reaches_prepend(a: Board, c: Board, b: Board)
    requires
        follows(a, c),
        reaches(c, b),
    ensures
        reaches(a, b),
{
    let path = choose|path: Seq<Board>| is_path(path) && path.first() == c && path.last() == b;
    let longer = seq![a] + path;
    assert forall|i: int| 0 <= i < longer.len() - 1 implies follows(
        #[trigger] longer[i],
        longer[i + 1],
    ) by {
        if i > 0 {
            assert(follows(path[i - 1], path[i]));
        }
    }
    assert(is_path(longer) && longer.first() == a && longer.last() == b);
}

/// Nothing follows the goal.
pub proof fn lemma_goal_is_last(c: Board)
    ensures
        !follows(Board::spec_solved(), c),
{
    reveal(follows);
    if successor(Board::spec_solved(), c) {
        let m = choose|m: Move|
            Board::spec_solved().legal(m) && c == Board::spec_solved().spec_mov(
                m,
            ).spec_normalize();
        lemma_move_len(Board::spec_solved(), m);
        Board::lemma_peg_counts();
    }
}

/// Boards that have been looked at, with all that follows them, hold all
/// that one of them leads to.
pub proof fn lemma_closed(checked: Set<Board>, a: Board, b: Board)
    requires
        checked.contains(a),
        reaches(a, b),
        forall|x: Board, c: Board|
            checked.contains(x) && #[trigger] follows(x, c) ==> checked.contains(c),
    ensures
        checked.contains(b),
{
    let path = choose|path: Seq<Board>| is_path(path) && path.first() == a && path.last() == b;
    lemma_closed_path(checked, path, path.len() - 1);
}

proof fn lemma_closed_path(checked: Set<Board>, path: Seq<Board>, n: int)
    requires
        is_path(path),
        checked.contains(path.first()),
        0 <= n < path.len(),
        forall|x: Board, c: Board|
            checked.contains(x) && #[trigger] follows(x, c) ==> checked.contains(c),
    ensures
        checked.contains(path[n]),
    decreases n,
{
    if n > 0 {
        lemma_closed_path(checked, path, n - 1);
        assert(follows(path[n - 1], path[n]));
    }
}

/// Nothing has been looked at yet.
proof fn lemma_consistent_empty(start: Board)
    ensures
        consistent(start, Set::empty(), Set::empty(), Seq::empty()),
{
    reveal(consistent);
    assert(Seq::<Board>::empty().to_set() =~= Set::<Board>::empty());
}

/// What is known of a board that has been looked at.
proof fn lemma_consistent_known(
    start: Board,
    checked: Set<Board>,
    solvable: Set<Board>,
    found: Seq<Board>,
    b: Board,
)
    requires
        consistent(start, checked, solvable, found),
        checked.contains(b),
    ensures
        solvable.contains(b) <==> wins(b),
{
    reveal(consistent);
}

/// A board is added to those looked at, after all that follows it.
proof fn lemma_consistent_add(
    start: Board,
    checked: Set<Board>,
    solvable: Set<Board>,
    found: Seq<Board>,
    b: Board,
)
    requires
        consistent(start, checked, solvable, found),
        b.wf(),
        reaches(start, b),
        forall|c: Board| #[trigger] follows(b, c) ==> checked.contains(c),
    ensures
        !wins(b) ==> consistent(start, checked.insert(b), solvable, found),
        wins(b) && solvable.contains(b) ==> consistent(
            start,
            checked.insert(b),
            solvable.insert(b),
            found,
        ),
        wins(b) && !solvable.contains(b) ==> consistent(
            start,
            checked.insert(b),
            solvable.insert(b),
            found.push(b),
        ),
{
    reveal(consistent);
    if wins(b) {
        if solvable.contains(b) {
            assert(solvable.insert(b) =~= solvable);
        } else {
            let longer = found.push(b);
            assert forall|i: int, j: int|
                0 <= i < longer.len() && 0 <= j < longer.len() && i != j implies longer[i]
                != longer[j] by {
                if i < found.len() {
                    assert(found.contains(found[i]));
                    assert(found.to_set().contains(found[i]));
                }
                if j < found.len() {
                    assert(found.contains(found[j]));
                    assert(found.to_set().contains(found[j]));
                }
            }
            assert(longer.to_set() =~= solvable.insert(b)) by {
                assert forall|x: Board| longer.to_set().contains(x) <==> solvable.insert(
                    b,
                ).contains(x) by {
                    if longer.contains(x) {
                        let i = choose|i: int| 0 <= i < longer.len() && longer[i] == x;
                        if i < found.len() {
                            assert(found.contains(x));
                            assert(found.to_set().contains(x));
                        }
                    }
                    if solvable.contains(x) {
                        assert(found.to_set().contains(x));
                        let i = choose|i: int| 0 <= i < found.len() && found[i] == x;
                        assert(longer[i] == x);
                    }
                    if x == b {
                        assert(longer[found.len() as int] == x);
                    }
                }
            }
        }
    } else {
        if solvable.contains(b) {
            assert(checked.contains(b));
        }
    }
}

/// One step of the search: the canonical form of what the move gives.
fn successor_of(board: &Board, m: Move) -> (next: Board)
    requires
        board.wf(),
        board.legal(m),
    ensures
        next == canon_after(*board, m),
        follows(*board, next),
        next.wf(),
        next@.len() + 1 == board@.len(),
{
    proof {
        lemma_canon_after(*board, m);
    }
    board.mov(m).normalize()
}

/// Looks at `board` and at all that it leads to, and says whether it leads
/// to the goal. Boards that were looked at before are not looked at again.
fn solve_all(
    board: Board,
    already_checked: &mut BoardSet,
    solvable: &mut BoardSet,
    found: &mut Vec<Board>,
    Ghost(start): Ghost<Board>,
) -> (r: bool)
    requires
        board.wf(),
        reaches(start, board),
        consistent(start, old(already_checked)@, old(solvable)@, old(found)@),
    ensures
        consistent(start, final(already_checked)@, final(solvable)@, final(found)@),
        old(already_checked)@.subset_of(final(already_checked)@),
        final(already_checked)@.contains(board),
        r == wins(board),
    decreases board@.len(),
{
    if board.is_solved() {
        proof {
            lemma_reaches_self(board);
            assert forall|c: Board| #[trigger] follows(board, c) implies already_checked@.contains(
                c,
            ) by {
                lemma_goal_is_last(c);
            }
            lemma_consistent_add(start, already_checked@, solvable@, found@, board);
        }
        if solvable.insert(board) {
            found.push(board);
        }
        already_checked.insert(board);
        return true;
    }
    if already_checked.contains(&board) {
        proof {
            lemma_consistent_known(start, already_checked@, solvable@, found@, board);
        }
        return solvable.contains(&board);
    }
    let moves = board.get_legal_moves();
    let mut any_solution = false;
    let mut i: usize = 0;
    while i < moves.len()
        invariant
            0 <= i <= moves.len(),
            board.wf(),
            reaches(start, board),
            forall|k: int| 0 <= k < moves.len() ==> board.legal(#[trigger] moves[k]),
            consistent(start, already_checked@, solvable@, found@),
            old(already_checked)@.subset_of(already_checked@),
            forall|k: int|
                0 <= k < i ==> already_checked@.contains(#[trigger] canon_after(board, moves[k])),
            any_solution <==> exists|k: int|
                0 <= k < i && wins(#[trigger] canon_after(board, moves[k])),
        decreases moves.len() - i,
    {
        let m = moves[i];
        let next = successor_of(&board, m);
        proof {
            lemma_reaches_push(start, board, next);
        }
        let ghost before = already_checked@;
        let ghost was = any_solution;
        let solved = solve_all(next, already_checked, solvable, found, Ghost(start));
        if solved {
            any_solution = true;
        }
        proof {
            assert forall|k: int| 0 <= k < i + 1 implies already_checked@.contains(
                #[trigger] canon_after(board, moves[k]),
            ) by {
                if k < i {
                    assert(before.contains(canon_after(board, moves[k])));
                }
            }
            if solved {
                assert(wins(canon_after(board, moves[i as int])));
            }
            if was {
                let k = choose|k: int| 0 <= k < i && wins(#[trigger] canon_after(board, moves[k]));
                assert(wins(canon_after(board, moves[k])));
            }
            if any_solution == false {
                assert forall|k: int| 0 <= k < i + 1 implies !wins(
                    #[trigger] canon_after(board, moves[k]),
                ) by {}
            }
        }
        i = i + 1;
    }
    proof {
        assert forall|c: Board| #[trigger] follows(board, c) implies already_checked@.contains(
            c,
        ) by {
            lemma_follows(board, c);
            let m = choose|m: Move| board.legal(m) && c == #[trigger] canon_after(board, m);
            assert(moves@.contains(m));
            let k = choose|k: int| 0 <= k < moves@.len() && moves@[k] == m;
            assert(already_checked@.contains(canon_after(board, moves[k])));
        }
        if any_solution {
            let k = choose|k: int|
                0 <= k < moves.len() && wins(#[trigger] canon_after(board, moves[k]));
            lemma_canon_after(board, moves[k]);
            lemma_reaches_prepend(board, canon_after(board, moves[k]), Board::spec_solved());
        }
        if wins(board) {
            let c = lemma_reaches_first(board, Board::spec_solved());
            lemma_follows(board, c);
            let m = choose|m: Move| board.legal(m) && c == #[trigger] canon_after(board, m);
            assert(moves@.contains(m));
            let k = choose|k: int| 0 <= k < moves@.len() && moves@[k] == m;
            assert(wins(canon_after(board, moves[k])));
        }
        lemma_consistent_add(start, already_checked@, solvable@, found@, board);
    }
    already_checked.insert(board);
    if any_solution {
        if solvable.insert(board) {
            found.push(board);
        }
    }
    any_solution
}

/// The boards that `start` leads to and that lead to the goal, where after
/// each move the board is put into canonical form. Each is listed once, a
/// board after the boards that were found from it.
pub fn solvable_boards(start: Board) -> (r: Vec<Board>)
    requires
        start.wf(),
    ensures
        r@.no_duplicates(),
        r@.to_set() == solvable_from(start),
{
    let mut solvable = BoardSet::new();
    let mut already_checked = BoardSet::new();
    let mut found: Vec<Board> = Vec::new();
    proof {
        lemma_reaches_self(start);
        lemma_consistent_empty(start);
    }
    solve_all(start, &mut already_checked, &mut solvable, &mut found, Ghost(start));
    proof {
        reveal(consistent);
        assert forall|b: Board| found@.to_set().contains(b) <==> solvable_from(start).contains(
            b,
        ) by {
            if solvable_from(start).contains(b) {
                lemma_closed(already_checked@, start, b);
            }
            if found@.to_set().contains(b) {
                assert(solvable@.contains(b));
                assert(already_checked@.contains(b));
            }
        }
        assert(found@.to_set() =~= solvable_from(start));
    }
    found
}

/// All solvable boards: the canonical forms of the boards that moves lead to
/// from the start and from which moves lead to the goal. Each is listed once.
pub fn calculate_all_solutions_naive() -> (r: Vec<Board>)
    ensures
        r@.no_duplicates(),
        r@.to_set() == solvable_boards_of_the_game(),
        r@.to_set() == solvable_from(Board::spec_default()),
{
    proof {
        lemma_solvable_boards_of_the_game();
    }
    solvable_boards(Board::default())
}

} // verus!
