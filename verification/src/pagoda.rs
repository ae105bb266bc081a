//! A pagoda function: a weight for each cell such that no legal move makes
//! the weight of the pegs greater. Here the five pivot cells weigh one and
//! the others nothing.

use crate::bits::{bit, lemma_bit_ops, lemma_bit_single, lemma_lowest_bit};
use crate::board::{at, Board};
use crate::mov::Move;
use crate::reach::{is_pivot, lemma_pivot_jump};
use vstd::prelude::*;

verus! {

/// The pivot cells that hold a peg, among the cells with an index below `n`.
pub open spec fn pivot_pegs_below(b: Board, n: int) -> Set<(int, int)> {
    Set::new(|p: (int, int)| b.cell(p.0, p.1) && is_pivot(p.0, p.1) && 8 * p.0 + p.1 < n)
}

/// The pivot cells that hold a peg.
pub open spec fn pivot_pegs(b: Board) -> Set<(int, int)> {
    Set::new(|p: (int, int)| b.cell(p.0, p.1) && is_pivot(p.0, p.1))
}

/// The weight of the pegs of a board: the number of pivot cells that hold a
/// peg.
pub open spec fn spec_pagoda(b: Board) -> nat {
    pivot_pegs(b).len()
}

/// The weight of the cell with index `idx`.
pub fn pagoda_weight(idx: usize) -> (w: usize)
    ensures
        w == if is_pivot(idx as int / 8, idx as int % 8) {
            1usize
        } else {
            0usize
        },
{
    if idx == 11 || idx == 25 || idx == 27 || idx == 29 || idx == 43 {
        1
    } else {
        0
    }
}

/// The pivot cells that hold a peg are finitely many, and at most five.
pub proof fn lemma_pivot_pegs(b: Board, n: int)
    ensures
        pivot_pegs_below(b, n).finite(),
        pivot_pegs_below(b, n).len() <= 5,
        n >= 64 ==> pivot_pegs_below(b, n) == pivot_pegs(b),
        n <= 0 ==> pivot_pegs_below(b, n).len() == 0,
{
    let all = set![(1int, 3int), (3int, 1int), (3int, 3int), (3int, 5int), (5int, 3int)];
    assert(pivot_pegs_below(b, n).subset_of(all));
    vstd::set_lib::lemma_len_subset(pivot_pegs_below(b, n), all);
    if n >= 64 {
        assert(pivot_pegs_below(b, n) =~= pivot_pegs(b));
    }
    if n <= 0 {
        assert(pivot_pegs_below(b, n) =~= Set::<(int, int)>::empty());
    }
}

/// The weight of the pegs of the board.
pub fn pagoda(board: Board) -> (r: usize)
    ensures
        r == spec_pagoda(board),
        r <= 5,
{
    let mut result: usize = 0;
    let mut copy = board.0;
    let ghost mut done: int = 0;
    proof {
        lemma_pivot_pegs(board, 0);
    }
    while copy != 0
        invariant
            0 <= done <= 64,
            forall|i: int| 0 <= i < 64 ==> bit(copy, i) == (bit(board.0, i) && i >= done),
            result == pivot_pegs_below(board, done).len(),
            result <= 5,
        decreases 64 - done,
    {
        let idx = copy.trailing_zeros();
        proof {
            lemma_lowest_bit(copy);
            assert(bit(copy, idx as int));
        }
        let ghost before = copy;
        copy = copy & !(1u64 << idx);
        proof {
            assert forall|i: int| 0 <= i < 64 implies bit(copy, i) == (bit(board.0, i) && i >= idx
                + 1) by {
                lemma_bit_ops(before, !(1u64 << idx), i as u64);
                lemma_bit_ops(1u64 << idx, 0, i as u64);
                lemma_bit_single(idx as u64, i as u64);
                if done <= i < idx {
                    assert(!bit(before, i));
                }
            }
            let here = (idx as int / 8, idx as int % 8);
            let old_set = pivot_pegs_below(board, done);
            let new_set = pivot_pegs_below(board, idx + 1);
            lemma_pivot_pegs(board, done);
            lemma_pivot_pegs(board, idx + 1);
            assert(board.cell(here.0, here.1));
            if is_pivot(here.0, here.1) {
                assert(new_set =~= old_set.insert(here)) by {
                    assert forall|p: (int, int)| new_set.contains(p) implies old_set.insert(
                        here,
                    ).contains(p) by {
                        let i = 8 * p.0 + p.1;
                        if i < idx && i >= done {
                            assert(!bit(before, i));
                        }
                    }
                }
            } else {
                assert(new_set =~= old_set) by {
                    assert forall|p: (int, int)| new_set.contains(p) implies old_set.contains(
                        p,
                    ) by {
                        let i = 8 * p.0 + p.1;
                        if i < idx && i >= done {
                            assert(!bit(before, i));
                        }
                    }
                }
            }
            done = idx + 1;
        }
        result = result + pagoda_weight(idx as usize);
    }
    proof {
        lemma_pivot_pegs(board, done);
        lemma_pivot_pegs(board, 64);
        assert(pivot_pegs_below(board, done) =~= pivot_pegs(board)) by {
            assert forall|p: (int, int)| pivot_pegs(board).contains(p) implies pivot_pegs_below(
                board,
                done,
            ).contains(p) by {
                let i = 8 * p.0 + p.1;
                if i >= done {
                    lemma_bit_ops(0, 0, i as u64);
                }
            }
        }
    }
    result
}

/// No legal move makes the weight of the pegs greater.
pub proof fn lemma_pagoda_monotone(b: Board, m: Move)
    requires
        b.legal(m),
    ensures
        spec_pagoda(b.spec_mov(m)) <= spec_pagoda(b),
{
    let after = b.spec_mov(m);
    b.lemma_mov_cells(m);
    lemma_pivot_pegs(b, 64);
    lemma_pivot_pegs(after, 64);
    let before_set = pivot_pegs(b);
    let after_set = pivot_pegs(after);
    if is_pivot(m.target.0 as int, m.target.1 as int) {
        lemma_pivot_jump(m);
        let swapped = before_set.remove(at(m.pos)).insert(at(m.target));
        assert forall|p: (int, int)| after_set.contains(p) implies swapped.contains(p) by {
            assert(after.cell(p.0, p.1) == after@.contains(p));
            assert(b.cell(p.0, p.1) == b@.contains(p));
        }
        assert(after_set.subset_of(swapped));
        vstd::set_lib::lemma_len_subset(after_set, swapped);
        assert(b.cell(m.pos.0 as int, m.pos.1 as int));
        assert(before_set.contains(at(m.pos)));
    } else {
        assert forall|p: (int, int)| after_set.contains(p) implies before_set.contains(p) by {
            assert(after.cell(p.0, p.1) == after@.contains(p));
            assert(b.cell(p.0, p.1) == b@.contains(p));
        }
        assert(after_set.subset_of(before_set));
        vstd::set_lib::lemma_len_subset(after_set, before_set);
    }
}

/// Takes from the list the boards whose inverse weighs less than the goal,
/// and says how many were taken. From such a board the start cannot be
/// reached by taking moves back.
pub fn prune_pagoda_inverse(constellations: &mut Vec<Board>) -> (pruned: usize)
    ensures
        final(constellations)@ == old(constellations)@.filter(
            |b: Board| spec_pagoda(b.spec_inverse()) >= spec_pagoda(Board::spec_solved()),
        ),
        pruned == old(constellations)@.len() - final(constellations)@.len(),
{
    let ghost pred = |b: Board| spec_pagoda(b.spec_inverse()) >= spec_pagoda(Board::spec_solved());
    let goal = pagoda(Board::solved());
    let mut kept: Vec<Board> = Vec::new();
    let mut i: usize = 0;
    proof {
        assert(constellations@.subrange(0, 0).filter(pred) =~= Seq::<Board>::empty()) by {
            reveal(Seq::filter);
        }
    }
    while i < constellations.len()
        invariant
            0 <= i <= constellations.len(),
            constellations@ == old(constellations)@,
            goal == spec_pagoda(Board::spec_solved()),
            pred == |b: Board| spec_pagoda(b.spec_inverse()) >= spec_pagoda(Board::spec_solved()),
            kept@ == constellations@.subrange(0, i as int).filter(pred),
            kept.len() <= i,
        decreases constellations.len() - i,
    {
        let b = constellations[i];
        proof {
            let prefix = constellations@.subrange(0, i as int);
            assert(constellations@.subrange(0, i + 1) =~= prefix.push(b));
            prefix.lemma_filter_push(b, pred);
        }
        if pagoda(b.inverse()) >= goal {
            kept.push(b);
        }
        i = i + 1;
    }
    proof {
        assert(constellations@.subrange(0, constellations.len() as int) =~= constellations@);
    }
    let pruned = constellations.len() - kept.len();
    *constellations = kept;
    pruned
}

} // verus!
