//! One solution of the game, found by trying the moves in depth.

use crate::board::Board;
use crate::hash::BoardSet;
use crate::known_solution::lemma_game_can_be_won;
use crate::mov::Move;
use crate::parallel::{dedup, lemma_dedup_ends, lemma_dedup_same};
use crate::reach::{
    can_win, leads, lemma_leads_len, lemma_leads_push, lemma_move_len, lemma_no_pivot_no_win,
    lemma_win_step,
};
use crate::solution::{solves, Solution};
use vstd::prelude::*;

verus! {

/// The boards of the pairs come in descending order of their words.
pub open spec fn descending(s: Seq<(Board, Move)>) -> bool {
    forall|i: int, j: int| 0 <= i < j < s.len() ==> s[i].0.0 >= s[j].0.0
}

/// The pairs ordered by the board, the greatest word first; pairs with the
/// same board keep their order.
pub fn sort_descending(v: &Vec<(Board, Move)>) -> (r: Vec<(Board, Move)>)
    ensures
        r@.to_multiset() == v@.to_multiset(),
        descending(r@),
{
    broadcast use vstd::seq_lib::group_to_multiset_ensures;

    let mut r: Vec<(Board, Move)> = Vec::new();
    let mut i: usize = 0;
    proof {
        assert(v@.subrange(0, 0) =~= Seq::<(Board, Move)>::empty());
        assert(r@ =~= v@.subrange(0, 0));
    }
    while i < v.len()
        invariant
            0 <= i <= v.len(),
            r@.len() == i,
            r@.to_multiset() == v@.subrange(0, i as int).to_multiset(),
            descending(r@),
        decreases v.len() - i,
    {
        let x = v[i];
        let mut p: usize = 0;
        while p < r.len() && r[p].0.0 >= x.0.0
            invariant
                0 <= p <= r.len(),
                forall|k: int| 0 <= k < p ==> r@[k].0.0 >= x.0.0,
            decreases r.len() - p,
        {
            p = p + 1;
        }
        let ghost before = r@;
        r.insert(p, x);
        proof {
            assert(r@ == before.insert(p as int, x));
            assert(v@.subrange(0, i + 1) =~= v@.subrange(0, i as int).push(x));
            vstd::seq_lib::to_multiset_insert(before, p as int, x);
            vstd::seq_lib::to_multiset_build(v@.subrange(0, i as int), x);
            assert forall|a: int, b: int| 0 <= a < b < r@.len() implies r@[a].0.0
                >= r@[b].0.0 by {
                if a < p && b > p {
                    assert(r@[a] == before[a]);
                    assert(r@[b] == before[b - 1]);
                } else if a < p && b == p {
                } else if a == p {
                    assert(r@[b] == before[b - 1]);
                    assert(before[p as int].0.0 < x.0.0);
                } else if b < p {
                    assert(r@[a] == before[a]);
                    assert(r@[b] == before[b]);
                } else {
                    assert(r@[a] == before[a - 1]);
                    assert(r@[b] == before[b - 1]);
                }
            }
        }
        i = i + 1;
    }
    proof {
        assert(v@.subrange(0, v.len() as int) =~= v@);
    }
    r
}

/// The pairs without those that repeat the pair before them.
pub fn dedup_pairs(v: &Vec<(Board, Move)>) -> (r: Vec<(Board, Move)>)
    ensures
        r@ == dedup(v@),
{
    let mut r: Vec<(Board, Move)> = Vec::new();
    let mut i: usize = 0;
    while i < v.len()
        invariant
            0 <= i <= v.len(),
            r@ == dedup(v@.subrange(0, i as int)),
        decreases v.len() - i,
    {
        proof {
            assert(v@.subrange(0, i + 1).drop_last() =~= v@.subrange(0, i as int));
        }
        let fresh = if i == 0 {
            true
        } else {
            let a = v[i];
            let b = v[i - 1];
            !(a.0.0 == b.0.0 && a.1.pos.0 == b.1.pos.0 && a.1.pos.1 == b.1.pos.1 && a.1.skip.0
                == b.1.skip.0 && a.1.skip.1 == b.1.skip.1 && a.1.target.0 == b.1.target.0
                && a.1.target.1 == b.1.target.1)
        };
        if fresh {
            r.push(v[i]);
        }
        i = i + 1;
    }
    proof {
        assert(v@.subrange(0, v.len() as int) =~= v@);
    }
    r
}

/// The legal moves of a board, each with the board it gives, ordered by that
/// board with the greatest word first.
pub fn ordered_moves(board: &Board) -> (r: Vec<(Board, Move)>)
    ensures
        forall|i: int|
            0 <= i < r.len() ==> board.legal((#[trigger] r[i]).1) && r[i].0 == board.spec_mov(
                r[i].1,
            ),
        forall|m: Move| board.legal(m) ==> r@.contains((board.spec_mov(m), m)),
        descending(r@),
        r@.no_duplicates(),
        r@.len() == board.spec_legal_moves().len(),
{
    broadcast use vstd::seq_lib::group_to_multiset_ensures;

    let moves = board.get_legal_moves();
    let mut pairs: Vec<(Board, Move)> = Vec::new();
    let mut i: usize = 0;
    while i < moves.len()
        invariant
            0 <= i <= moves.len(),
            forall|m: Move| moves@.contains(m) <==> board.legal(m),
            moves@.no_duplicates(),
            pairs.len() == i,
            forall|k: int| 0 <= k < i ==> #[trigger] pairs[k] == (board.spec_mov(moves[k]), moves[k]),
        decreases moves.len() - i,
    {
        let m = moves[i];
        proof {
            assert(moves@[i as int] == m);
            assert(moves@.contains(m));
            assert(board.legal(m));
        }
        pairs.push((board.mov(m), m));
        i = i + 1;
    }
    let sorted = sort_descending(&pairs);
    let r = dedup_pairs(&sorted);
    proof {
        assert forall|a: int, b: int| 0 <= a < b < pairs@.len() implies pairs@[a] != pairs@[b] by {
            assert(pairs[a].1 == moves[a] && pairs[b].1 == moves[b]);
        }
        pairs@.lemma_multiset_has_no_duplicates();
        sorted@.lemma_multiset_has_no_duplicates_conv();
        lemma_dedup_same(sorted@);
        vstd::seq_lib::to_multiset_len(sorted@);
        vstd::seq_lib::to_multiset_len(pairs@);
        lemma_dedup_ends(sorted@);
        assert forall|x: (Board, Move)| r@.contains(x) <==> pairs@.contains(x) by {
            assert(sorted@.to_multiset().count(x) == pairs@.to_multiset().count(x));
            if r@.contains(x) {
                assert(sorted@.contains(x));
                assert(sorted@.to_multiset().count(x) > 0);
                assert(pairs@.to_multiset().count(x) > 0);
            }
            if pairs@.contains(x) {
                assert(pairs@.to_multiset().count(x) > 0);
                assert(sorted@.to_multiset().count(x) > 0);
                assert(sorted@.contains(x));
            }
        }
        assert forall|k: int| 0 <= k < r.len() implies board.legal((#[trigger] r[k]).1) && r[k].0
            == board.spec_mov(r[k].1) by {
            assert(r@.contains(r[k]));
            let j = choose|j: int| 0 <= j < pairs@.len() && pairs@[j] == r[k];
            assert(moves@.contains(moves[j]));
        }
        assert forall|m: Move| board.legal(m) implies r@.contains((board.spec_mov(m), m)) by {
            let j = choose|j: int| 0 <= j < moves@.len() && moves@[j] == m;
            assert(pairs@[j] == (board.spec_mov(m), m));
            assert(pairs@.contains((board.spec_mov(m), m)));
        }
        lemma_dedup_descending(sorted@);
    }
    r
}

/// A list in descending order stays so without its repetitions.
proof fn lemma_dedup_descending(s: Seq<(Board, Move)>)
    requires
        descending(s),
    ensures
        descending(dedup(s)),
    decreases s.len(),
{
    if s.len() > 1 {
        let p = s.drop_last();
        lemma_dedup_descending(p);
        lemma_dedup_ends(p);
        let d = dedup(p);
        if s[s.len() - 1] != s[s.len() - 2] {
            assert forall|i: int, j: int| 0 <= i < j < dedup(s).len() implies dedup(s)[i].0.0
                >= dedup(s)[j].0.0 by {
                if j == d.len() {
                    assert(d.contains(d[i]));
                    assert(p.contains(d[i]));
                    let k = choose|k: int| 0 <= k < p.len() && p[k] == d[i];
                    assert(s[k].0.0 >= s[s.len() - 1].0.0);
                }
            }
        }
    }
}

/// Tries to reach the goal from `board`, to which the moves of `solution`
/// lead from the start. Where this succeeds, `solution` holds the moves of the
/// whole way. Else it is as before, and `visited` has been told of the
/// boards that were found to be dead ends.
pub fn solve(board: Board, solution: &mut Solution, visited: &mut BoardSet) -> (found: bool)
    requires
        board.wf(),
        leads(Board::spec_default(), old(solution)@, board),
        old(solution)@.len() + board@.len() == 32,
        forall|b: Board| old(visited)@.contains(b) ==> !can_win(b),
    ensures
        found ==> solves(final(solution)@),
        !found ==> !can_win(board) && final(solution)@ == old(solution)@,
        forall|b: Board| final(visited)@.contains(b) ==> !can_win(b),
    decreases board@.len(),
{
    if board.is_solved() {
        return true;
    }
    if !board.is_solvable() {
        proof {
            lemma_no_pivot_no_win(board);
        }
        return false;
    }
    if visited.contains(&board) {
        return false;
    }
    let legal_moves = ordered_moves(&board);
    let mut i: usize = 0;
    while i < legal_moves.len()
        invariant
            0 <= i <= legal_moves.len(),
            board.wf(),
            leads(Board::spec_default(), solution@, board),
            solution@ == old(solution)@,
            solution@.len() + board@.len() == 32,
            forall|k: int|
                0 <= k < legal_moves.len() ==> board.legal((#[trigger] legal_moves[k]).1)
                    && legal_moves[k].0 == board.spec_mov(legal_moves[k].1),
            forall|k: int| 0 <= k < i ==> !can_win((#[trigger] legal_moves[k]).0),
            forall|b: Board| visited@.contains(b) ==> !can_win(b),
        decreases legal_moves.len() - i,
    {
        let (b, m) = legal_moves[i];
        proof {
            lemma_move_len(board, m);
            lemma_leads_push(Board::spec_default(), solution@, board, m);
        }
        let ghost before = solution@;
        solution.push(m);
        if solve(b, solution, visited) {
            return true;
        }
        solution.pop();
        proof {
            assert(solution@ =~= before);
        }
        i = i + 1;
    }
    proof {
        lemma_win_step(board);
        if can_win(board) {
            let m = choose|m: Move| board.legal(m) && can_win(#[trigger] board.spec_mov(m));
            assert(legal_moves@.contains((board.spec_mov(m), m)));
            let k = choose|k: int|
                0 <= k < legal_moves@.len() && legal_moves@[k] == (board.spec_mov(m), m);
            assert(!can_win(legal_moves[k].0));
        }
    }
    visited.insert(board);
    false
}

/// A solution of the game: 31 legal moves that lead from the board of the
/// start to the goal. It is found by trying, for each board, the moves in the
/// descending order of the boards they give.
pub fn calculate_first_solution() -> (r: Solution)
    ensures
        solves(r@),
        r@.len() == 31,
{
    let mut solution = Solution::new();
    let mut visited = BoardSet::new();
    proof {
        Board::lemma_peg_counts();
        assert(leads(Board::spec_default(), Seq::<Move>::empty(), Board::spec_default()));
    }
    let found = solve(Board::default(), &mut solution, &mut visited);
    proof {
        // the search finds a solution where there is one, and there is one
        lemma_game_can_be_won();
        lemma_leads_len(Board::spec_default(), solution@, Board::spec_solved());
    }
    solution
}

} // verus!
