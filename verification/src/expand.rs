//! From a list of boards to the canonical forms of all boards that one move
//! leads to, or that one move led from.

use crate::bits::{bit, lemma_bit_ops, lemma_bit_single, lemma_lowest_bit};
use crate::board::{at, Board};
use crate::dir::Dir;
use crate::mov::Move;
use crate::moves::{cell_of, lemma_concat_contains};
use crate::parallel::{chunks, lemma_chunks_flatten, mapped_chunks, maps_to, parallel, views};
use crate::sort::all_wf;
use vstd::prelude::*;

verus! {

/// A board that may be missing, as a list of no board or one.
pub open spec fn opt_board(b: Option<Board>) -> Seq<Board> {
    match b {
        Some(b) => seq![b],
        None => Seq::empty(),
    }
}

/// The board that the jump at the cell with index `i` in direction `dir`
/// gives, if the jump is there: played forward, or taken back.
pub open spec fn step(b: Board, i: int, dir: Dir, forward: bool) -> Option<Board> {
    let p = at(cell_of(i));
    if forward {
        if b.can_jump(p, dir) {
            Some(b.spec_mov(Move::jump(p, dir)))
        } else {
            None
        }
    } else {
        if b.can_jump_back(p, dir) {
            Some(b.spec_reverse_mov(Move::jump_back(p, dir)))
        } else {
            None
        }
    }
}

/// The boards that the jumps in direction `dir` at the cells with an index
/// below `n` give, in the order of the cells.
pub open spec fn steps_below(b: Board, dir: Dir, forward: bool, n: int) -> Seq<Board>
    decreases n,
{
    if n <= 0 {
        Seq::empty()
    } else {
        steps_below(b, dir, forward, n - 1) + opt_board(step(b, n - 1, dir, forward))
    }
}

/// The boards that the jumps in direction `dir` give on the first `k` boards
/// of a list, board after board.
pub open spec fn steps_of(states: Seq<Board>, dir: Dir, forward: bool, k: int) -> Seq<Board>
    decreases k,
{
    if k <= 0 {
        Seq::empty()
    } else {
        steps_of(states, dir, forward, k - 1) + steps_below(states[k - 1], dir, forward, 64)
    }
}

/// The boards that the jumps in the first `d` directions give on the boards
/// of a list, direction after direction.
pub open spec fn raw_expand(states: Seq<Board>, forward: bool, d: int) -> Seq<Board>
    decreases d,
{
    if d <= 0 {
        Seq::empty()
    } else {
        raw_expand(states, forward, d - 1) + steps_of(
            states,
            Dir::spec_enumerate()[d - 1],
            forward,
            states.len() as int,
        )
    }
}

/// The canonical forms of the boards of a list.
pub open spec fn normalized(s: Seq<Board>) -> Seq<Board> {
    s.map_values(|b: Board| b.spec_normalize())
}

/// The canonical forms of all boards that one move on a board of the list
/// gives: by direction, then by board, then by cell.
pub open spec fn expand(states: Seq<Board>, forward: bool) -> Seq<Board> {
    normalized(raw_expand(states, forward, 4))
}

/// What `expand` gives chunk by chunk, for the chunks in which `n` workers
/// take the list, joined.
pub open spec fn expand_chunks(states: Seq<Board>, n: nat, forward: bool) -> Seq<Board> {
    chunks(states, n).map_values(|c: Seq<Board>| expand(c, forward)).flatten()
}

/// `c` is the canonical form of a board that one legal move on `b` gives.
pub open spec fn successor(b: Board, c: Board) -> bool {
    exists|m: Move| b.legal(m) && c == b.spec_mov(m).spec_normalize()
}

/// `c` is the canonical form of a board from which one legal move gave `b`.
pub open spec fn predecessor(b: Board, c: Board) -> bool {
    exists|m: Move| b.legal_reverse(m) && c == b.spec_reverse_mov(m).spec_normalize()
}

/// `c` is a successor of `b`, or with `forward` false a predecessor.
pub open spec fn linked(b: Board, c: Board, forward: bool) -> bool {
    if forward {
        successor(b, c)
    } else {
        predecessor(b, c)
    }
}

/// The canonical forms of the boards that one legal move on a board of the
/// set gives.
pub open spec fn successors(s: Set<Board>) -> Set<Board> {
    Set::new(|c: Board| exists|b: Board| s.contains(b) && successor(b, c))
}

/// The canonical forms of the boards from which one legal move gave a board
/// of the set.
pub open spec fn predecessors(s: Set<Board>) -> Set<Board> {
    Set::new(|c: Board| exists|b: Board| s.contains(b) && predecessor(b, c))
}

/// The boards linked to a board of the set.
pub open spec fn neighbours(s: Set<Board>, forward: bool) -> Set<Board> {
    if forward {
        successors(s)
    } else {
        predecessors(s)
    }
}

/// The board that a move gives: played forward, or taken back.
pub open spec fn moved(b: Board, m: Move, forward: bool) -> Board {
    if forward {
        b.spec_mov(m)
    } else {
        b.spec_reverse_mov(m)
    }
}

/// The move is legal on the board: to play forward, or to take back.
pub open spec fn playable(b: Board, m: Move, forward: bool) -> bool {
    if forward {
        b.legal(m)
    } else {
        b.legal_reverse(m)
    }
}

/// A jump that `step` finds is a legal move.
proof fn lemma_step_sound(b: Board, i: int, dir: Dir, forward: bool) -> (m: Move)
    requires
        0 <= i < 64,
        step(b, i, dir, forward) is Some,
    ensures
        playable(b, m, forward),
        step(b, i, dir, forward) == Some(moved(b, m, forward)),
{
    b.lemma_can_jump(at(cell_of(i)), dir);
    if forward {
        Move::jump(at(cell_of(i)), dir)
    } else {
        Move::jump_back(at(cell_of(i)), dir)
    }
}

/// Each legal move is a jump that `step` finds: at which cell, and in which
/// direction by its number.
proof fn lemma_step_complete(b: Board, m: Move, forward: bool) -> (w: (int, int))
    requires
        playable(b, m, forward),
    ensures
        0 <= w.0 < 64,
        0 <= w.1 < 4,
        step(b, w.0, Dir::spec_enumerate()[w.1], forward) == Some(moved(b, m, forward)),
{
    let dir = choose|dir: Dir| m.along(dir);
    b.lemma_legal_is_jump(m, dir);
    if forward {
        let i = 8 * m.pos.0 + m.pos.1;
        let e = dir.number();
        assert(Dir::spec_enumerate()[e] == dir);
        assert(cell_of(i) == m.pos);
        (i, e)
    } else {
        let i = 8 * m.target.0 + m.target.1;
        let e = dir.opposite().number();
        assert(Dir::spec_enumerate()[e] == dir.opposite());
        assert(cell_of(i) == m.target);
        (i, e)
    }
}

/// `c` is linked to `b` exactly when it is the canonical form of what a
/// playable move gives.
pub proof fn lemma_linked(b: Board, c: Board, forward: bool)
    ensures
        linked(b, c, forward) <==> exists|m: Move|
            playable(b, m, forward) && c == #[trigger] moved(b, m, forward).spec_normalize(),
{
    if linked(b, c, forward) {
        if forward {
            let m = choose|m: Move| b.legal(m) && c == b.spec_mov(m).spec_normalize();
            assert(playable(b, m, forward) && c == moved(b, m, forward).spec_normalize());
        } else {
            let m = choose|m: Move|
                b.legal_reverse(m) && c == b.spec_reverse_mov(m).spec_normalize();
            assert(playable(b, m, forward) && c == moved(b, m, forward).spec_normalize());
        }
    }
    if exists|m: Move|
        playable(b, m, forward) && c == #[trigger] moved(b, m, forward).spec_normalize() {
        let m = choose|m: Move|
            playable(b, m, forward) && c == #[trigger] moved(b, m, forward).spec_normalize();
        if forward {
            assert(b.legal(m) && c == b.spec_mov(m).spec_normalize());
        } else {
            assert(b.legal_reverse(m) && c == b.spec_reverse_mov(m).spec_normalize());
        }
    }
}

/// What the list of the jumps at the first `n` cells holds.
proof fn lemma_steps_below_contains(b: Board, dir: Dir, forward: bool, n: int, x: Board)
    requires
        0 <= n <= 64,
    ensures
        steps_below(b, dir, forward, n).contains(x) <==> exists|i: int|
            0 <= i < n && #[trigger] step(b, i, dir, forward) == Some(x),
    decreases n,
{
    if n > 0 {
        lemma_steps_below_contains(b, dir, forward, n - 1, x);
        let last = opt_board(step(b, n - 1, dir, forward));
        lemma_concat_contains(steps_below(b, dir, forward, n - 1), last, x);
        if last.contains(x) {
            assert(last[0] == x);
        }
        if step(b, n - 1, dir, forward) == Some(x) {
            assert(last[0] == x);
        }
    }
}

/// What the list of the jumps on the first `k` boards holds.
proof fn lemma_steps_of_contains(states: Seq<Board>, dir: Dir, forward: bool, k: int, x: Board)
    requires
        0 <= k <= states.len(),
    ensures
        steps_of(states, dir, forward, k).contains(x) <==> exists|j: int, i: int|
            0 <= j < k && 0 <= i < 64 && #[trigger] step(states[j], i, dir, forward) == Some(x),
    decreases k,
{
    if k > 0 {
        lemma_steps_of_contains(states, dir, forward, k - 1, x);
        lemma_steps_below_contains(states[k - 1], dir, forward, 64, x);
        lemma_concat_contains(
            steps_of(states, dir, forward, k - 1),
            steps_below(states[k - 1], dir, forward, 64),
            x,
        );
        if steps_below(states[k - 1], dir, forward, 64).contains(x) {
            let i = choose|i: int|
                0 <= i < 64 && #[trigger] step(states[k - 1], i, dir, forward) == Some(x);
            assert(step(states[k - 1], i, dir, forward) == Some(x));
        }
    }
}

/// What the list of the jumps in the first `d` directions holds.
proof fn lemma_raw_expand_contains(states: Seq<Board>, forward: bool, d: int, x: Board)
    requires
        0 <= d <= 4,
    ensures
        raw_expand(states, forward, d).contains(x) <==> exists|j: int, i: int, e: int|
            0 <= j < states.len() && 0 <= i < 64 && 0 <= e < d && #[trigger] step(
                states[j],
                i,
                Dir::spec_enumerate()[e],
                forward,
            ) == Some(x),
    decreases d,
{
    if d > 0 {
        let dir = Dir::spec_enumerate()[d - 1];
        lemma_raw_expand_contains(states, forward, d - 1, x);
        lemma_steps_of_contains(states, dir, forward, states.len() as int, x);
        lemma_concat_contains(
            raw_expand(states, forward, d - 1),
            steps_of(states, dir, forward, states.len() as int),
            x,
        );
        if steps_of(states, dir, forward, states.len() as int).contains(x) {
            let (j, i) = choose|j: int, i: int|
                0 <= j < states.len() && 0 <= i < 64 && #[trigger] step(
                    states[j],
                    i,
                    dir,
                    forward,
                ) == Some(x);
            assert(step(states[j], i, Dir::spec_enumerate()[d - 1], forward) == Some(x));
        }
        if raw_expand(states, forward, d - 1).contains(x) {
            let (j, i, e) = choose|j: int, i: int, e: int|
                0 <= j < states.len() && 0 <= i < 64 && 0 <= e < d - 1 && #[trigger] step(
                    states[j],
                    i,
                    Dir::spec_enumerate()[e],
                    forward,
                ) == Some(x);
            assert(step(states[j], i, Dir::spec_enumerate()[e], forward) == Some(x));
        }
    }
}

/// Each board of the expansion is linked to a board of the list.
proof fn lemma_expand_sound(states: Seq<Board>, forward: bool, c: Board) -> (j: int)
    requires
        expand(states, forward).contains(c),
    ensures
        0 <= j < states.len(),
        linked(states[j], c, forward),
{
    let raw = raw_expand(states, forward, 4);
    let out = expand(states, forward);
    let k = choose|k: int| 0 <= k < out.len() && out[k] == c;
    let x = raw[k];
    assert(raw.contains(x));
    lemma_raw_expand_contains(states, forward, 4, x);
    let (j, i, e) = choose|j: int, i: int, e: int|
        0 <= j < states.len() && 0 <= i < 64 && 0 <= e < 4 && #[trigger] step(
            states[j],
            i,
            Dir::spec_enumerate()[e],
            forward,
        ) == Some(x);
    let m = lemma_step_sound(states[j], i, Dir::spec_enumerate()[e], forward);
    lemma_linked(states[j], c, forward);
    assert(c == moved(states[j], m, forward).spec_normalize());
    j
}

/// Each board linked to a board of the list is in the expansion.
proof fn lemma_expand_complete(states: Seq<Board>, forward: bool, j: int, c: Board)
    requires
        0 <= j < states.len(),
        linked(states[j], c, forward),
    ensures
        expand(states, forward).contains(c),
{
    let raw = raw_expand(states, forward, 4);
    let out = expand(states, forward);
    let b = states[j];
    lemma_linked(b, c, forward);
    let m = choose|m: Move|
        playable(b, m, forward) && c == #[trigger] moved(b, m, forward).spec_normalize();
    let x = moved(b, m, forward);
    let w = lemma_step_complete(b, m, forward);
    assert(step(states[j], w.0, Dir::spec_enumerate()[w.1], forward) == Some(x));
    lemma_raw_expand_contains(states, forward, 4, x);
    assert(raw.contains(x));
    let k = choose|k: int| 0 <= k < raw.len() && raw[k] == x;
    assert(out[k] == c);
}

/// The expansion of a list holds the boards linked to a board of the list,
/// and nothing else.
pub proof fn lemma_expand_contains(states: Seq<Board>, forward: bool, c: Board)
    ensures
        expand(states, forward).contains(c) <==> exists|j: int|
            0 <= j < states.len() && linked(#[trigger] states[j], c, forward),
{
    if expand(states, forward).contains(c) {
        let j = lemma_expand_sound(states, forward, c);
    }
    if exists|j: int| 0 <= j < states.len() && linked(#[trigger] states[j], c, forward) {
        let j = choose|j: int| 0 <= j < states.len() && linked(#[trigger] states[j], c, forward);
        lemma_expand_complete(states, forward, j, c);
    }
}

/// The expansion of a list is, as a set, the neighbours of its boards.
pub proof fn lemma_expand_set(states: Seq<Board>, forward: bool)
    ensures
        expand(states, forward).to_set() == neighbours(states.to_set(), forward),
{
    assert forall|c: Board| expand(states, forward).contains(c) <==> neighbours(
        states.to_set(),
        forward,
    ).contains(c) by {
        if expand(states, forward).contains(c) {
            let j = lemma_expand_sound(states, forward, c);
            assert(states.contains(states[j]));
            lemma_neighbour(states.to_set(), states[j], c, forward);
        }
        if neighbours(states.to_set(), forward).contains(c) {
            let b = lemma_neighbour_of(states.to_set(), c, forward);
            let j = choose|j: int| 0 <= j < states.len() && states[j] == b;
            lemma_expand_complete(states, forward, j, c);
        }
    }
    assert(expand(states, forward).to_set() =~= neighbours(states.to_set(), forward));
}

/// A board linked to a board of the set is a neighbour of the set.
pub proof fn lemma_neighbour(s: Set<Board>, b: Board, c: Board, forward: bool)
    requires
        s.contains(b),
        linked(b, c, forward),
    ensures
        neighbours(s, forward).contains(c),
{
}

/// A neighbour of the set is linked to one of its boards.
pub proof fn lemma_neighbour_of(s: Set<Board>, c: Board, forward: bool) -> (b: Board)
    requires
        neighbours(s, forward).contains(c),
    ensures
        s.contains(b),
        linked(b, c, forward),
{
    if forward {
        choose|b: Board| s.contains(b) && successor(b, c)
    } else {
        choose|b: Board| s.contains(b) && predecessor(b, c)
    }
}

/// What a list of lists, joined, holds.
pub proof fn lemma_flatten_contains<T>(parts: Seq<Seq<T>>, x: T)
    ensures
        parts.flatten().contains(x) <==> exists|i: int|
            0 <= i < parts.len() && (#[trigger] parts[i]).contains(x),
    decreases parts.len(),
{
    if parts.len() > 0 {
        let rest = parts.drop_first();
        lemma_flatten_contains(rest, x);
        lemma_concat_contains(parts.first(), rest.flatten(), x);
        if rest.flatten().contains(x) {
            let i = choose|i: int| 0 <= i < rest.len() && (#[trigger] rest[i]).contains(x);
            assert(parts[i + 1].contains(x));
        }
        if exists|i: int| 0 <= i < parts.len() && (#[trigger] parts[i]).contains(x) {
            let i = choose|i: int| 0 <= i < parts.len() && (#[trigger] parts[i]).contains(x);
            if i > 0 {
                assert(rest[i - 1].contains(x));
            }
        }
    }
}

/// The expansion chunk by chunk holds what the expansion of the whole list
/// holds: the boards linked to a board of the list.
pub proof fn lemma_expand_chunks(states: Seq<Board>, n: nat, forward: bool)
    ensures
        expand_chunks(states, n, forward).to_set() == neighbours(states.to_set(), forward),
{
    let cs = chunks(states, n);
    let parts = cs.map_values(|c: Seq<Board>| expand(c, forward));
    let out = expand_chunks(states, n, forward);
    let goal = neighbours(states.to_set(), forward);
    lemma_chunks_flatten(states, n);
    assert forall|c: Board| out.contains(c) implies goal.contains(c) by {
        lemma_flatten_contains(parts, c);
        let i = choose|i: int| 0 <= i < parts.len() && (#[trigger] parts[i]).contains(c);
        let j = lemma_expand_sound(cs[i], forward, c);
        let b = cs[i][j];
        assert(cs[i].contains(b));
        lemma_flatten_contains(cs, b);
        assert(states.contains(b));
        lemma_neighbour(states.to_set(), b, c, forward);
    }
    assert forall|c: Board| goal.contains(c) implies out.contains(c) by {
        let b = lemma_neighbour_of(states.to_set(), c, forward);
        assert(states.contains(b));
        lemma_flatten_contains(cs, b);
        let i = choose|i: int| 0 <= i < cs.len() && (#[trigger] cs[i]).contains(b);
        let j = choose|j: int| 0 <= j < cs[i].len() && cs[i][j] == b;
        lemma_expand_complete(cs[i], forward, j, c);
        assert(parts[i].contains(c));
        lemma_flatten_contains(parts, c);
    }
    assert(out.to_set() =~= goal);
}

/// Cells without a jump add nothing to the list.
proof fn lemma_steps_below_skip(b: Board, dir: Dir, forward: bool, lo: int, hi: int)
    requires
        0 <= lo <= hi <= 64,
        forall|i: int| lo <= i < hi ==> step(b, i, dir, forward) is None,
    ensures
        steps_below(b, dir, forward, hi) == steps_below(b, dir, forward, lo),
    decreases hi - lo,
{
    if lo < hi {
        lemma_steps_below_skip(b, dir, forward, lo, hi - 1);
        assert(steps_below(b, dir, forward, hi) =~= steps_below(b, dir, forward, lo));
    }
}

/// The boards that one move on a board of the list gives, not yet in
/// canonical form: by direction, then by board, then by cell.
pub fn expand_states(states: &[Board], forward: bool) -> (r: Vec<Board>)
    ensures
        r@ == raw_expand(states@, forward, 4),
        all_wf(states@) ==> all_wf(r@),
{
    let mut out: Vec<Board> = Vec::new();
    let dirs = Dir::enumerate();
    let mut d: usize = 0;
    while d < 4
        invariant
            0 <= d <= 4,
            dirs@ == Dir::spec_enumerate(),
            out@ == raw_expand(states@, forward, d as int),
            all_wf(states@) ==> all_wf(out@),
        decreases 4 - d,
    {
        let dir = dirs[d];
        let ghost base = out@;
        let mut k: usize = 0;
        while k < states.len()
            invariant
                0 <= k <= states.len(),
                out@ == base + steps_of(states@, dir, forward, k as int),
                all_wf(states@) ==> all_wf(out@),
            decreases states.len() - k,
        {
            let board = states[k];
            let pattern = if forward {
                board.mov_pattern_mask(dir)
            } else {
                board.rev_mov_pattern_mask(dir)
            };
            let mut mask = pattern.0;
            let ghost mid = out@;
            let ghost mut done: int = 0;
            proof {
                assert forall|i: int| 0 <= i < 64 implies (bit(pattern.0, i) <==> step(
                    board,
                    i,
                    dir,
                    forward,
                ) is Some) by {
                    assert(pattern.cell(i / 8, i % 8) == bit(pattern.0, i));
                }
            }
            while mask != 0
                invariant
                    0 <= done <= 64,
                    forall|i: int| 0 <= i < 64 ==> (bit(pattern.0, i) <==> step(
                        board,
                        i,
                        dir,
                        forward,
                    ) is Some),
                    forall|i: int| 0 <= i < 64 ==> bit(mask, i) == (bit(pattern.0, i) && i >= done),
                    out@ == mid + steps_below(board, dir, forward, done),
                    all_wf(states@) ==> all_wf(out@) && board.wf(),
                decreases 64 - done,
            {
                let idx = mask.trailing_zeros() as usize;
                proof {
                    lemma_lowest_bit(mask);
                    assert(bit(mask, idx as int));
                    assert forall|i: int| done <= i < idx implies step(
                        board,
                        i,
                        dir,
                        forward,
                    ) is None by {
                        assert(!bit(mask, i));
                    }
                    lemma_steps_below_skip(board, dir, forward, done, idx as int);
                    assert(step(board, idx as int, dir, forward) is Some);
                    board.lemma_mov_cells(Move::jump(at(cell_of(idx as int)), dir));
                    board.lemma_mov_cells(Move::jump_back(at(cell_of(idx as int)), dir));
                    board.lemma_can_jump(at(cell_of(idx as int)), dir);
                }
                let ghost before = mask;
                mask = mask & !(1u64 << idx);
                let next = board.toggle_mov_idx_unchecked(idx, dir);
                proof {
                    assert forall|i: int| 0 <= i < 64 implies bit(mask, i) == (bit(pattern.0, i)
                        && i >= idx + 1) by {
                        lemma_bit_ops(before, !(1u64 << idx), i as u64);
                        lemma_bit_ops(1u64 << idx, 0, i as u64);
                        lemma_bit_single(idx as u64, i as u64);
                    }
                    let expected = step(board, idx as int, dir, forward)->Some_0;
                    next.lemma_view_ext(expected);
                    assert(steps_below(board, dir, forward, idx + 1) =~= steps_below(
                        board,
                        dir,
                        forward,
                        idx as int,
                    ).push(next));
                    done = idx + 1;
                }
                out.push(next);
                proof {
                    assert(out@ =~= mid + steps_below(board, dir, forward, done));
                }
            }
            proof {
                assert forall|i: int| done <= i < 64 implies step(board, i, dir, forward) is None by {
                    lemma_bit_ops(0, 0, i as u64);
                }
                lemma_steps_below_skip(board, dir, forward, done, 64);
            }
            k = k + 1;
            proof {
                assert(out@ =~= base + steps_of(states@, dir, forward, k as int));
            }
        }
        d = d + 1;
        proof {
            assert(out@ =~= raw_expand(states@, forward, d as int));
        }
    }
    out
}

/// Puts each board of the vector into its canonical form.
pub fn normalize(constellations: &mut Vec<Board>)
    ensures
        final(constellations)@ == normalized(old(constellations)@),
        all_wf(old(constellations)@) ==> all_wf(final(constellations)@),
{
    let n = constellations.len();
    let mut i: usize = 0;
    while i < n
        invariant
            0 <= i <= n,
            n == constellations.len(),
            n == old(constellations)@.len(),
            forall|k: int| 0 <= k < i ==> constellations@[k] == old(
                constellations,
            )@[k].spec_normalize(),
            forall|k: int| i <= k < n ==> constellations@[k] == old(constellations)@[k],
            all_wf(old(constellations)@) ==> all_wf(constellations@),
        decreases n - i,
    {
        let b = constellations[i].normalize();
        constellations[i] = b;
        i = i + 1;
    }
    proof {
        assert(constellations@ =~= normalized(old(constellations)@));
    }
}

/// The canonical forms of all boards that one legal move on a board of the
/// list gives: by direction, then by board, then by the cell from which the
/// move starts.
pub fn possible_moves(states: &[Board]) -> (r: Vec<Board>)
    ensures
        r@ == expand(states@, true),
        all_wf(states@) ==> all_wf(r@),
{
    let mut constellations = expand_states(states, true);
    normalize(&mut constellations);
    constellations
}

/// The canonical forms of all boards from which one legal move gave a board
/// of the list: by direction, then by board, then by the cell on which the
/// move landed.
pub fn reverse_moves(states: &[Board]) -> (r: Vec<Board>)
    ensures
        r@ == expand(states@, false),
        all_wf(states@) ==> all_wf(r@),
{
    let mut constellations = expand_states(states, false);
    normalize(&mut constellations);
    constellations
}

/// What the chunks give when each is expanded by itself.
proof fn lemma_parts_expand(
    states: Seq<Board>,
    n: nat,
    forward: bool,
    parts: Seq<Vec<Board>>,
    out: Seq<Board>,
)
    requires
        parts.len() == chunks(states, n).len(),
        forall|i: int|
            0 <= i < parts.len() ==> (#[trigger] parts[i])@ == expand(chunks(states, n)[i], forward),
        forall|i: int|
            0 <= i < parts.len() ==> (all_wf(chunks(states, n)[i]) ==> all_wf(
                (#[trigger] parts[i])@,
            )),
        out == views(parts).flatten(),
    ensures
        out == expand_chunks(states, n, forward),
        out.to_set() == neighbours(states.to_set(), forward),
        all_wf(states) ==> all_wf(out),
{
    assert(views(parts) =~= chunks(states, n).map_values(|c: Seq<Board>| expand(c, forward)));
    lemma_expand_chunks(states, n, forward);
    if all_wf(states) {
        lemma_chunks_flatten(states, n);
        assert forall|k: int| 0 <= k < out.len() implies (#[trigger] out[k]).wf() by {
            assert(out.contains(out[k]));
            lemma_flatten_contains(views(parts), out[k]);
            let i = choose|i: int|
                0 <= i < parts.len() && (#[trigger] views(parts)[i]).contains(out[k]);
            let c = chunks(states, n)[i];
            assert forall|j: int| 0 <= j < c.len() implies (#[trigger] c[j]).wf() by {
                assert(c.contains(c[j]));
                lemma_flatten_contains(chunks(states, n), c[j]);
            }
        }
    }
}

/// The canonical forms of all boards that one legal move on a board of the
/// list gives, worked out chunk by chunk as `num_threads` workers would.
pub fn possible_moves_par(states: &[Board], num_threads: usize) -> (r: Vec<Board>)
    requires
        num_threads >= 1,
    ensures
        r@ == expand_chunks(states@, num_threads as nat, true),
        r@.to_set() == successors(states@.to_set()),
        all_wf(states@) ==> all_wf(r@),
{
    let r = parallel(states, num_threads, possible_moves);
    proof {
        let parts = choose|parts: Seq<Vec<Board>>|
            mapped_chunks(possible_moves, states@, num_threads as nat, parts) && r@ == views(
                parts,
            ).flatten();
        assert forall|i: int| 0 <= i < parts.len() implies (#[trigger] parts[i])@ == expand(
            chunks(states@, num_threads as nat)[i],
            true,
        ) && (all_wf(chunks(states@, num_threads as nat)[i]) ==> all_wf(parts[i]@)) by {
            assert(maps_to(possible_moves, chunks(states@, num_threads as nat)[i], parts[i]));
        }
        lemma_parts_expand(states@, num_threads as nat, true, parts, r@);
    }
    r
}

/// The canonical forms of all boards from which one legal move gave a board
/// of the list, worked out chunk by chunk as `num_threads` workers would.
pub fn reverse_moves_par(states: &[Board], num_threads: usize) -> (r: Vec<Board>)
    requires
        num_threads >= 1,
    ensures
        r@ == expand_chunks(states@, num_threads as nat, false),
        r@.to_set() == predecessors(states@.to_set()),
        all_wf(states@) ==> all_wf(r@),
{
    let r = parallel(states, num_threads, reverse_moves);
    proof {
        let parts = choose|parts: Seq<Vec<Board>>|
            mapped_chunks(reverse_moves, states@, num_threads as nat, parts) && r@ == views(
                parts,
            ).flatten();
        assert forall|i: int| 0 <= i < parts.len() implies (#[trigger] parts[i])@ == expand(
            chunks(states@, num_threads as nat)[i],
            false,
        ) && (all_wf(chunks(states@, num_threads as nat)[i]) ==> all_wf(parts[i]@)) by {
            assert(maps_to(reverse_moves, chunks(states@, num_threads as nat)[i], parts[i]));
        }
        lemma_parts_expand(states@, num_threads as nat, false, parts, r@);
    }
    r
}

} // verus!
