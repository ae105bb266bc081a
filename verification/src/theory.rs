//! Why the layered search finds what it should: moves go along with the
//! symmetries, taking a move back undoes it, and exchanging pegs and holes
//! turns a game played forward into a game taken back. From these it follows
//! that the boards of the layers are the canonical boards that the start leads
//! to and that lead to the goal.

use crate::board::{at, cross, in_cross, Board};
use crate::calc_naive::{
    follows, is_path, lemma_follows, lemma_reaches_first, lemma_reaches_prepend,
    lemma_reaches_push, lemma_reaches_self, reaches, solvable_from, wins,
};
use crate::dir::Dir;
use crate::expand::{lemma_linked, linked, moved, playable, predecessor, successor};
use crate::mov::Move;
use crate::reach::{
    can_win, leads, lemma_leads_first, lemma_leads_prepend, lemma_leads_push, lemma_move_len,
    lemma_win_step,
};
use crate::solution::replay;
use crate::solver::{
    is_layering, lemma_link_good, lemma_paired_contains, lemma_reverse_layer_good,
    lemma_solvable_layer_good, pair_of, paired, reverse_layer, solvable_layer, solvable_set,
};
use crate::symmetry::{sym_cell, sym_compose, sym_inverse};
use vstd::prelude::*;

verus! {

/// A cell as a position of executable code.
pub open spec fn to_pos(p: (int, int)) -> (i64, i64) {
    (p.0 as i64, p.1 as i64)
}

/// The move that the `k`-th symmetry makes of a move: each of its cells goes
/// where the symmetry brings it.
pub open spec fn move_image(m: Move, k: int) -> Move {
    Move {
        pos: to_pos(sym_cell(sym_inverse(k), at(m.pos))),
        skip: to_pos(sym_cell(sym_inverse(k), at(m.skip))),
        target: to_pos(sym_cell(sym_inverse(k), at(m.target))),
    }
}

/// A symmetry and the symmetry that undoes it bring each cell back, and the
/// cross is mapped onto itself.
pub proof fn lemma_sym_cell_inverse(k: int, p: (int, int))
    requires
        0 <= k < 8,
    ensures
        sym_cell(k, sym_cell(sym_inverse(k), p)) == p,
        sym_cell(sym_inverse(k), sym_cell(k, p)) == p,
        in_cross(sym_cell(k, p).0, sym_cell(k, p).1) == in_cross(p.0, p.1),
        sym_compose(k, sym_inverse(k)) == 0,
        sym_compose(sym_inverse(k), k) == 0,
        0 <= sym_inverse(k) < 8,
{
}

/// The image of a jump on the cross is a jump.
pub proof fn lemma_image_jump(m: Move, k: int)
    requires
        0 <= k < 8,
        m.is_jump(),
        in_cross(m.pos.0 as int, m.pos.1 as int),
        in_cross(m.target.0 as int, m.target.1 as int),
    ensures
        move_image(m, k).is_jump(),
        at(move_image(m, k).pos) == sym_cell(sym_inverse(k), at(m.pos)),
        at(move_image(m, k).skip) == sym_cell(sym_inverse(k), at(m.skip)),
        at(move_image(m, k).target) == sym_cell(sym_inverse(k), at(m.target)),
{
    let back = sym_inverse(k);
    let image = move_image(m, k);
    assert(in_cross(m.skip.0 as int, m.skip.1 as int));
    lemma_sym_cell_inverse(back, at(m.pos));
    lemma_sym_cell_inverse(back, at(m.skip));
    lemma_sym_cell_inverse(back, at(m.target));
    assert(at(image.pos) == sym_cell(back, at(m.pos)));
    assert(at(image.skip) == sym_cell(back, at(m.skip)));
    assert(at(image.target) == sym_cell(back, at(m.target)));
    assert(image.along(Dir::North) || image.along(Dir::West) || image.along(Dir::East)
        || image.along(Dir::South));
}

/// Moves go along with the symmetries: where a move can be played on a
/// well-formed board, its image can be played on the image of the board, and
/// gives the image of what the move gives. The same holds of taking back.
pub proof fn lemma_equivariant(b: Board, m: Move, k: int, forward: bool)
    requires
        b.wf(),
        playable(b, m, forward),
        0 <= k < 8,
    ensures
        playable(b.spec_symmetries()[k], move_image(m, k), forward),
        moved(b.spec_symmetries()[k], move_image(m, k), forward) == moved(
            b,
            m,
            forward,
        ).spec_symmetries()[k],
        moved(b, m, forward).wf(),
        b.spec_symmetries()[k].wf(),
{
    let a = b.spec_symmetries()[k];
    let image = move_image(m, k);
    let x = moved(b, m, forward);
    let y = moved(a, image, forward);
    lemma_image_jump(m, k);
    b.lemma_sym_cells(k);
    b.lemma_mov_cells(m);
    lemma_sym_cell_inverse(k, at(m.pos));
    lemma_sym_cell_inverse(k, at(m.skip));
    lemma_sym_cell_inverse(k, at(m.target));
    assert(a.cell(at(image.pos).0, at(image.pos).1) == b.cell(m.pos.0 as int, m.pos.1 as int));
    assert(a.cell(at(image.skip).0, at(image.skip).1) == b.cell(m.skip.0 as int, m.skip.1 as int));
    assert(a.cell(at(image.target).0, at(image.target).1) == b.cell(
        m.target.0 as int,
        m.target.1 as int,
    ));
    assert(image.pos != image.skip) by {
        if image.pos == image.skip {
            assert(at(m.pos) == at(m.skip));
        }
    }
    assert(playable(a, image, forward));
    a.lemma_mov_cells(image);
    x.lemma_sym_cells(k);
    let z = x.spec_symmetries()[k];
    assert forall|v: int, u: int| 0 <= v < 8 && 0 <= u < 8 implies y.cell(v, u) == z.cell(v, u) by {
        let q = sym_cell(k, (v, u));
        lemma_sym_cell_inverse(k, (v, u));
        assert(z.cell(v, u) == x.cell(q.0, q.1));
        assert(x.cell(q.0, q.1) == x@.contains(q));
        assert(y.cell(v, u) == y@.contains((v, u)));
        assert(a.cell(v, u) == a@.contains((v, u)));
        assert(b.cell(q.0, q.1) == b@.contains(q));
        assert(a.cell(v, u) == b.cell(q.0, q.1));
        assert(((v, u) == at(image.pos)) == (q == at(m.pos)));
        assert(((v, u) == at(image.skip)) == (q == at(m.skip)));
        assert(((v, u) == at(image.target)) == (q == at(m.target)));
    }
    y.lemma_ext(z);
}

/// Taking back a move that was played gives the board back, and playing a
/// move that was taken back does.
pub proof fn lemma_undo(b: Board, m: Move, forward: bool)
    requires
        playable(b, m, forward),
    ensures
        playable(moved(b, m, forward), m, !forward),
        moved(moved(b, m, forward), m, !forward) == b,
{
    let x = moved(b, m, forward);
    b.lemma_mov_cells(m);
    assert(m.target != m.pos && m.target != m.skip);
    assert(x.cell(m.pos.0 as int, m.pos.1 as int) == x@.contains(at(m.pos)));
    assert(x.cell(m.skip.0 as int, m.skip.1 as int) == x@.contains(at(m.skip)));
    assert(x.cell(m.target.0 as int, m.target.1 as int) == x@.contains(at(m.target)));
    assert(b.cell(m.pos.0 as int, m.pos.1 as int) == b@.contains(at(m.pos)));
    assert(b.cell(m.skip.0 as int, m.skip.1 as int) == b@.contains(at(m.skip)));
    assert(b.cell(m.target.0 as int, m.target.1 as int) == b@.contains(at(m.target)));
    assert(at(m.pos) != at(m.skip));
    assert(at(m.target) != at(m.pos) && at(m.target) != at(m.skip));
    assert(playable(x, m, !forward));
    x.lemma_mov_cells(m);
    let y = moved(x, m, !forward);
    assert(y@ =~= b@);
    y.lemma_view_ext(b);
}

/// A move on a board is a move taken back on the board with pegs and holes
/// exchanged, and the other way round.
pub proof fn lemma_dual(b: Board, m: Move, forward: bool)
    requires
        b.wf(),
        playable(b, m, forward),
    ensures
        playable(b.spec_inverse(), m, !forward),
        moved(b.spec_inverse(), m, !forward) == moved(b, m, forward).spec_inverse(),
{
    let i = b.spec_inverse();
    let x = moved(b, m, forward);
    b.lemma_inverse_cells();
    b.lemma_mov_cells(m);
    assert(i.cell(m.pos.0 as int, m.pos.1 as int) == !b.cell(m.pos.0 as int, m.pos.1 as int));
    assert(i.cell(m.skip.0 as int, m.skip.1 as int) == !b.cell(m.skip.0 as int, m.skip.1 as int));
    assert(i.cell(m.target.0 as int, m.target.1 as int) == !b.cell(
        m.target.0 as int,
        m.target.1 as int,
    ));
    assert(playable(i, m, !forward));
    i.lemma_mov_cells(m);
    x.lemma_inverse_cells();
    let l = moved(i, m, !forward);
    let r = x.spec_inverse();
    assert(at(m.pos) != at(m.skip));
    assert forall|v: int, u: int| 0 <= v < 8 && 0 <= u < 8 implies l.cell(v, u) == r.cell(v, u) by {
        let p = (v, u);
        assert(l.cell(v, u) == l@.contains(p));
        assert(x.cell(v, u) == x@.contains(p));
        assert(b.cell(v, u) == b@.contains(p));
        assert(i.cell(v, u) == i@.contains(p));
        assert(i.cell(v, u) == (in_cross(v, u) && !b.cell(v, u)));
        assert(r.cell(v, u) == (in_cross(v, u) && !x.cell(v, u)));
    }
    l.lemma_ext(r);
}

/// What is linked to a well-formed board is linked to each of its images.
pub proof fn lemma_linked_sym(b: Board, k: int, c: Board, forward: bool)
    requires
        b.wf(),
        0 <= k < 8,
        linked(b, c, forward),
    ensures
        linked(b.spec_symmetries()[k], c, forward),
        b.spec_symmetries()[k].wf(),
{
    lemma_linked(b, c, forward);
    let m = choose|m: Move|
        playable(b, m, forward) && c == #[trigger] moved(b, m, forward).spec_normalize();
    lemma_equivariant(b, m, k, forward);
    let a = b.spec_symmetries()[k];
    let image = move_image(m, k);
    moved(b, m, forward).lemma_normalize_sym(k);
    assert(playable(a, image, forward) && c == moved(a, image, forward).spec_normalize());
    lemma_linked(a, c, forward);
}

/// What is linked to a well-formed board is linked to its canonical form.
pub proof fn lemma_linked_normalize(b: Board, c: Board, forward: bool)
    requires
        b.wf(),
        linked(b, c, forward),
    ensures
        linked(b.spec_normalize(), c, forward),
{
    b.lemma_normalize_least();
    let k = choose|k: int| 0 <= k < 8 && b.spec_normalize() == b.spec_symmetries()[k];
    lemma_linked_sym(b, k, c, forward);
}

/// A move back to where one came from: what a move on a canonical board
/// leads to, leads back to the board by the move taken back, and the other
/// way round.
pub proof fn lemma_back(b: Board, c: Board, forward: bool)
    requires
        b.wf(),
        b.canonical(),
        linked(b, c, forward),
    ensures
        linked(c, b, !forward),
{
    lemma_linked(b, c, forward);
    let m = choose|m: Move|
        playable(b, m, forward) && c == #[trigger] moved(b, m, forward).spec_normalize();
    let x = moved(b, m, forward);
    lemma_undo(b, m, forward);
    b.lemma_mov_cells(m);
    assert(playable(x, m, !forward) && b == moved(x, m, !forward).spec_normalize());
    lemma_linked(x, b, !forward);
    lemma_linked_normalize(x, b, !forward);
}

/// Exchanging pegs and holes turns a move into a move taken back: where `c` is
/// linked to a well-formed board, the board listed with `c` leads, by a move
/// of the same kind, to the board listed with the board.
pub proof fn lemma_pair_step(b: Board, c: Board, forward: bool)
    requires
        b.wf(),
        linked(b, c, forward),
    ensures
        linked(pair_of(c), pair_of(b), forward),
        pair_of(b).wf(),
        pair_of(c).wf(),
        pair_of(b).canonical(),
        pair_of(c).canonical(),
{
    lemma_linked(b, c, forward);
    let m = choose|m: Move|
        playable(b, m, forward) && c == #[trigger] moved(b, m, forward).spec_normalize();
    let x = moved(b, m, forward);
    let i = b.spec_inverse();
    lemma_dual(b, m, forward);
    b.lemma_mov_cells(m);
    b.lemma_inverse_cells();
    x.lemma_inverse_cells();
    // the inverse of the board leads, the other way, to the inverse of what the move gives
    x.lemma_inverse_normalize();
    assert(playable(i, m, !forward) && pair_of(c) == moved(i, m, !forward).spec_normalize());
    lemma_linked(i, pair_of(c), !forward);
    lemma_linked_normalize(i, pair_of(c), !forward);
    i.lemma_normalize_canonical();
    x.spec_inverse().lemma_normalize_canonical();
    c.lemma_inverse_cells();
    lemma_back(pair_of(b), pair_of(c), !forward);
}

/// What follows a well-formed board is well formed and canonical and holds
/// one peg less.
pub proof fn lemma_follows_good(b: Board, c: Board)
    requires
        b.wf(),
        follows(b, c),
    ensures
        c.wf(),
        c.canonical(),
        c@.len() + 1 == b@.len(),
        successor(b, c),
{
    lemma_follows(b, c);
    lemma_link_good(b, c, true);
}

/// The boards of a path from a well-formed canonical board are well formed and
/// canonical, and each step takes a peg.
pub proof fn lemma_path_good(path: Seq<Board>, n: int)
    requires
        is_path(path),
        path.first().wf(),
        path.first().canonical(),
        0 <= n < path.len(),
    ensures
        path[n].wf(),
        path[n].canonical(),
        path[n]@.len() + n == path.first()@.len(),
    decreases n,
{
    if n > 0 {
        lemma_path_good(path, n - 1);
        lemma_follows_good(path[n - 1], path[n]);
    }
}

/// What a well-formed canonical board leads to is well formed and canonical
/// and holds no more pegs; with as many pegs it is the board itself.
pub proof fn lemma_reaches_good(a: Board, b: Board)
    requires
        a.wf(),
        a.canonical(),
        reaches(a, b),
    ensures
        b.wf(),
        b.canonical(),
        b@.len() <= a@.len(),
        b@.len() == a@.len() ==> a == b,
{
    let path = choose|path: Seq<Board>| is_path(path) && path.first() == a && path.last() == b;
    lemma_path_good(path, path.len() - 1);
}

/// The boards listed with the goal and with the start are the start and the
/// goal.
pub proof fn lemma_pair_of_ends()
    ensures
        pair_of(Board::spec_solved()) == Board::spec_default(),
        pair_of(Board::spec_default()) == Board::spec_solved(),
        Board::spec_default().wf(),
        Board::spec_default().canonical(),
        Board::spec_solved().wf(),
        Board::spec_solved().canonical(),
{
    let goal = Board::spec_solved();
    let start = Board::spec_default();
    Board::lemma_solved_cells();
    Board::lemma_default_cells();
    Board::lemma_start_and_goal_symmetric();
    goal.lemma_inverse_cells();
    start.lemma_inverse_cells();
    goal.spec_inverse().lemma_ext(start);
    start.spec_inverse().lemma_ext(goal);
}

/// A path read backwards, with pegs and holes exchanged, is a path: where a
/// well-formed board leads to another, the board listed with that one leads to
/// the board listed with the first.
pub proof fn lemma_pair_path(a: Board, b: Board)
    requires
        a.wf(),
        a.canonical(),
        reaches(a, b),
    ensures
        reaches(pair_of(b), pair_of(a)),
{
    let path = choose|path: Seq<Board>| is_path(path) && path.first() == a && path.last() == b;
    lemma_pair_path_upto(path, path.len() - 1);
}

proof fn lemma_pair_path_upto(path: Seq<Board>, n: int)
    requires
        is_path(path),
        path.first().wf(),
        path.first().canonical(),
        0 <= n < path.len(),
    ensures
        reaches(pair_of(path[n]), pair_of(path.first())),
    decreases n,
{
    if n == 0 {
        lemma_reaches_self(pair_of(path.first()));
    } else {
        lemma_pair_path_upto(path, n - 1);
        lemma_path_good(path, n - 1);
        lemma_follows_good(path[n - 1], path[n]);
        lemma_pair_step(path[n - 1], path[n], true);
        lemma_follows(pair_of(path[n]), pair_of(path[n - 1]));
        lemma_reaches_prepend(pair_of(path[n]), pair_of(path[n - 1]), pair_of(path.first()));
    }
}

/// A canonical board leads to the goal exactly when the start leads to the
/// board it is listed with, and the start leads to it exactly when the board
/// it is listed with leads to the goal.
pub proof fn lemma_dual_wins(c: Board)
    requires
        c.wf(),
        c.canonical(),
    ensures
        wins(c) <==> reaches(Board::spec_default(), pair_of(c)),
        reaches(Board::spec_default(), c) <==> wins(pair_of(c)),
        pair_of(c).wf(),
        pair_of(c).canonical(),
        pair_of(pair_of(c)) == c,
        pair_of(c)@.len() + c@.len() == 33,
{
    lemma_pair_of_ends();
    c.lemma_pairing_involution();
    let d = pair_of(c);
    if wins(c) {
        lemma_pair_path(c, Board::spec_solved());
    }
    if reaches(Board::spec_default(), d) {
        lemma_pair_path(Board::spec_default(), d);
    }
    if reaches(Board::spec_default(), c) {
        lemma_pair_path(Board::spec_default(), c);
    }
    if wins(d) {
        lemma_pair_path(d, Board::spec_solved());
    }
    // the pegs of the two boards are the holes of each other
    c.lemma_inverse_cells();
    c.lemma_view_len();
    c.lemma_wf_cells();
    Board::lemma_peg_counts();
    vstd::set_lib::lemma_len_difference(cross(), c@);
    assert(cross().difference(c@).len() + c@.len() == 33) by {
        vstd::set_lib::lemma_set_difference_len(cross(), c@);
        assert(cross().intersect(c@) =~= c@);
    }
    c.spec_inverse().lemma_sym_len(0);
}

/// What is linked to the canonical form of a well-formed board is linked to
/// the board.
pub proof fn lemma_linked_unnormalize(q: Board, c: Board, forward: bool)
    requires
        q.wf(),
        linked(q.spec_normalize(), c, forward),
    ensures
        linked(q, c, forward),
{
    q.lemma_normalize_least();
    let j = choose|j: int| 0 <= j < 8 && q.spec_normalize() == q.spec_symmetries()[j];
    let p = q.spec_symmetries()[j];
    let back = sym_inverse(j);
    q.lemma_sym_cells(j);
    lemma_sym_cell_inverse(j, (0, 0));
    q.lemma_sym_compose(j, back);
    assert(p.spec_symmetries()[back] == q);
    lemma_linked_sym(p, back, c, forward);
}

/// A board that leads to another and is not that board leads to a board that
/// the other follows.
pub proof fn lemma_reaches_last(a: Board, c: Board) -> (p: Board)
    requires
        reaches(a, c),
        a != c,
    ensures
        reaches(a, p),
        follows(p, c),
{
    let path = choose|path: Seq<Board>| is_path(path) && path.first() == a && path.last() == c;
    let init = path.drop_last();
    assert forall|i: int| 0 <= i < init.len() - 1 implies follows(
        #[trigger] init[i],
        init[i + 1],
    ) by {
        assert(follows(path[i], path[i + 1]));
    }
    assert(follows(path[path.len() - 2], path[path.len() - 1]));
    assert(is_path(init) && init.first() == a && init.last() == path[path.len() - 2]);
    path[path.len() - 2]
}

/// The boards of a layer grown backwards from the goal lead to the goal.
pub proof fn lemma_reverse_layer_wins(k: nat, b: Board)
    requires
        reverse_layer(k).contains(b),
    ensures
        wins(b),
        b.wf(),
        b.canonical(),
        b@.len() == k,
    decreases k,
{
    lemma_reverse_layer_good(k, b);
    if k == 1 {
        lemma_reaches_self(b);
    } else if k > 1 {
        let a = choose|a: Board| reverse_layer((k - 1) as nat).contains(a) && predecessor(a, b);
        lemma_reverse_layer_wins((k - 1) as nat, a);
        lemma_back(a, b, false);
        lemma_follows(b, a);
        lemma_reaches_prepend(b, a, Board::spec_solved());
    }
}

/// Each canonical board with `k` pegs that leads to the goal is in layer `k`
/// of the layers grown backwards from the goal.
pub proof fn lemma_reverse_layer_complete(k: nat, b: Board)
    requires
        k >= 1,
        b.wf(),
        b.canonical(),
        b@.len() == k,
        wins(b),
    ensures
        reverse_layer(k).contains(b),
    decreases k,
{
    let goal = Board::spec_solved();
    Board::lemma_peg_counts();
    lemma_pair_of_ends();
    if b != goal {
        let c = lemma_reaches_first(b, goal);
        lemma_follows_good(b, c);
        lemma_reaches_good(c, goal);
        if k > 1 {
            lemma_reverse_layer_complete((k - 1) as nat, c);
            lemma_back(b, c, true);
            assert(reverse_layer((k - 1) as nat).contains(c) && predecessor(c, b));
        }
    }
}

/// The start leads to the canonical form of each board of a layer of the
/// solvable boards, and up to 16 pegs the board leads to the goal.
pub proof fn lemma_solvable_layer_sound(k: nat, b: Board)
    requires
        1 <= k <= 17,
        solvable_layer(k).contains(b),
    ensures
        b.wf(),
        reaches(Board::spec_default(), b.spec_normalize()),
        k <= 16 ==> wins(b) && b.canonical() && b@.len() == k,
    decreases 17 - k,
{
    lemma_pair_of_ends();
    if k == 17 {
        let a = choose|a: Board| reverse_layer(16).contains(a) && b == a.spec_inverse();
        lemma_reverse_layer_wins(16, a);
        lemma_dual_wins(a);
        a.lemma_inverse_cells();
    } else {
        lemma_reverse_layer_wins(k, b);
        let p = choose|p: Board| solvable_layer(k + 1).contains(p) && successor(p, b);
        lemma_solvable_layer_sound(k + 1, p);
        lemma_linked_normalize(p, b, true);
        lemma_follows(p.spec_normalize(), b);
        lemma_reaches_push(Board::spec_default(), p.spec_normalize(), b);
    }
}

/// Each canonical board with `k` pegs, up to 16, that the start leads to and
/// that leads to the goal is in layer `k` of the solvable boards.
pub proof fn lemma_solvable_layer_complete(k: nat, b: Board)
    requires
        1 <= k <= 16,
        b.wf(),
        b.canonical(),
        b@.len() == k,
        wins(b),
        reaches(Board::spec_default(), b),
    ensures
        solvable_layer(k).contains(b),
    decreases 17 - k,
{
    let start = Board::spec_default();
    let goal = Board::spec_solved();
    Board::lemma_peg_counts();
    lemma_pair_of_ends();
    lemma_reverse_layer_complete(k, b);
    let p = lemma_reaches_last(start, b);
    lemma_reaches_good(start, p);
    lemma_follows_good(p, b);
    lemma_reaches_prepend(p, b, goal);
    if k + 1 <= 16 {
        lemma_solvable_layer_complete(k + 1, p);
        assert(solvable_layer(k + 1).contains(p) && successor(p, b));
    } else {
        let a = pair_of(p);
        lemma_dual_wins(p);
        lemma_dual_wins(a);
        lemma_reverse_layer_complete(16, a);
        let q = a.spec_inverse();
        a.lemma_inverse_cells();
        assert(reverse_layer(16).contains(a) && q == a.spec_inverse());
        assert(solvable_layer(17).contains(q));
        assert(q.spec_normalize() == p);
        lemma_linked_unnormalize(q, b, true);
        assert(solvable_layer(k + 1).contains(q) && successor(q, b));
    }
}

/// The solvable boards of the layers are the canonical boards that the start
/// leads to and that lead to the goal.
pub proof fn lemma_solvable_set()
    ensures
        solvable_set() == solvable_from(Board::spec_default()),
{
    let start = Board::spec_default();
    let goal = Board::spec_solved();
    Board::lemma_peg_counts();
    lemma_pair_of_ends();
    assert forall|b: Board| solvable_set().contains(b) implies solvable_from(start).contains(b) by {
        let (k, c) = choose|k: nat, c: Board|
            k < 17 && #[trigger] solvable_layer(k).contains(c) && (b == c || b == pair_of(c));
        if k == 0 {
            assert(!reverse_layer(0).contains(c));
        }
        lemma_solvable_layer_sound(k, c);
        lemma_dual_wins(c);
    }
    assert forall|b: Board| solvable_from(start).contains(b) implies solvable_set().contains(b) by {
        lemma_reaches_good(start, b);
        lemma_reaches_good(b, goal);
        lemma_dual_wins(b);
        let n = b@.len();
        if n <= 16 {
            lemma_solvable_layer_complete(n, b);
            assert(n < 17 && solvable_layer(n).contains(b) && (b == b || b == pair_of(b)));
        } else {
            let c = pair_of(b);
            lemma_dual_wins(c);
            let j = c@.len();
            lemma_solvable_layer_complete(j, c);
            assert(j < 17 && solvable_layer(j).contains(c) && (b == c || b == pair_of(c)));
        }
    }
    assert(solvable_set() =~= solvable_from(start));
}

/// The boards of the first `n` layers, one layer behind the other, are all
/// different, and each holds fewer than `n` pegs.
proof fn lemma_layers_unique(layers: Seq<Seq<Board>>, n: int)
    requires
        is_layering(layers),
        0 <= n <= 17,
    ensures
        layers.subrange(0, n).flatten().no_duplicates(),
        forall|i: int|
            0 <= i < layers.subrange(0, n).flatten().len() ==> {
                let b = #[trigger] layers.subrange(0, n).flatten()[i];
                b.wf() && b.canonical() && b@.len() < n
            },
    decreases n,
{
    if n == 0 {
        assert(layers.subrange(0, 0) =~= Seq::<Seq<Board>>::empty());
    } else {
        lemma_layers_unique(layers, n - 1);
        let head = layers.subrange(0, n - 1);
        let last = layers[n - 1];
        assert(layers.subrange(0, n) =~= head.push(last));
        head.lemma_flatten_push(last);
        let flat = head.flatten();
        let all = flat + last;
        assert forall|i: int| 0 <= i < last.len() implies (#[trigger] last[i]).wf()
            && last[i].canonical() && last[i]@.len() == n - 1 by {
            assert(last.contains(last[i]));
            assert(last.to_set().contains(last[i]));
            lemma_solvable_layer_good((n - 1) as nat, last[i]);
        }
        assert forall|i: int, j: int| 0 <= i < all.len() && 0 <= j < all.len() && i != j implies all[i]
            != all[j] by {
            if i < flat.len() && j < flat.len() {
            } else if i >= flat.len() && j >= flat.len() {
                let a = i - flat.len();
                let b = j - flat.len();
                if a < b {
                    assert(last[a].0 < last[b].0);
                } else {
                    assert(last[b].0 < last[a].0);
                }
            } else if i < flat.len() {
                assert(flat[i]@.len() < n - 1);
                assert(all[j] == last[j - flat.len()]);
            } else {
                assert(flat[j]@.len() < n - 1);
                assert(all[i] == last[i - flat.len()]);
            }
        }
    }
}

/// Canonical boards with fewer than 17 pegs and the boards they are listed
/// with: a board is not listed with itself or another, and different boards
/// are listed with different boards.
proof fn lemma_pair_distinct(x: Board, y: Board)
    requires
        x.wf(),
        x.canonical(),
        x@.len() < 17,
        y.wf(),
        y.canonical(),
        y@.len() < 17,
    ensures
        x != pair_of(y),
        pair_of(x) == pair_of(y) ==> x == y,
{
    lemma_dual_wins(x);
    lemma_dual_wins(y);
}

/// Where the boards of a list are all different, canonical and of fewer than
/// 17 pegs, the list of each board with the board it is listed with holds no
/// board twice.
proof fn lemma_paired_unique(flat: Seq<Board>, r: Seq<Board>, i: int, j: int)
    requires
        flat.no_duplicates(),
        forall|k: int|
            0 <= k < flat.len() ==> (#[trigger] flat[k]).wf() && flat[k].canonical()
                && flat[k]@.len() < 17,
        r.len() == 2 * flat.len(),
        forall|k: int|
            0 <= k < flat.len() ==> r[2 * k] == #[trigger] flat[k] && r[2 * k + 1] == pair_of(
                flat[k],
            ),
        0 <= i < r.len(),
        0 <= j < r.len(),
        i != j,
    ensures
        r[i] != r[j],
{
    let a = i / 2;
    let b = j / 2;
    let x = flat[a];
    let y = flat[b];
    assert(r[2 * a] == x && r[2 * a + 1] == pair_of(x));
    assert(r[2 * b] == y && r[2 * b + 1] == pair_of(y));
    lemma_pair_distinct(x, y);
    lemma_pair_distinct(y, x);
    if a != b {
        assert(x != y);
    }
}

/// The list of all solvable boards holds each board once, and so is as long as
/// the solvable boards are many.
pub proof fn lemma_solvable_list_unique(layers: Seq<Seq<Board>>, r: Seq<Board>)
    requires
        is_layering(layers),
        r == paired(layers.flatten()),
    ensures
        r.no_duplicates(),
        r.to_set().finite(),
        r.len() == r.to_set().len(),
{
    let flat = layers.flatten();
    lemma_layers_unique(layers, 17);
    assert(layers.subrange(0, 17) =~= layers);
    lemma_paired_contains(flat, Board::spec_solved());
    assert forall|i: int, j: int| 0 <= i < r.len() && 0 <= j < r.len() && i != j implies r[i]
        != r[j] by {
        lemma_paired_unique(flat, r, i, j);
    }
    r.unique_seq_to_set();
    vstd::seq_lib::seq_to_set_is_finite(r);
}

/// Moves lead from the start to the board.
pub open spec fn from_start(b: Board) -> bool {
    exists|moves: Seq<Move>| leads(Board::spec_default(), moves, b)
}

/// The canonical boards of the game: the canonical forms of the boards that
/// moves lead to from the start and from which moves lead to the goal.
pub open spec fn solvable_boards_of_the_game() -> Set<Board> {
    Set::new(
        |c: Board|
            exists|b: Board| from_start(b) && can_win(b) && c == #[trigger] b.spec_normalize(),
    )
}

/// Where moves lead from a well-formed board to another, the canonical form
/// of the first leads to the canonical form of the second.
pub proof fn lemma_leads_reaches(a: Board, moves: Seq<Move>, b: Board)
    requires
        a.wf(),
        leads(a, moves, b),
    ensures
        b.wf(),
        reaches(a.spec_normalize(), b.spec_normalize()),
    decreases moves.len(),
{
    if moves.len() == 0 {
        lemma_reaches_self(a.spec_normalize());
    } else {
        let init = moves.drop_last();
        let boards = replay(a, init)->Some_0;
        let x = boards.last();
        let m = moves.last();
        lemma_leads_reaches(a, init, x);
        lemma_move_len(x, m);
        assert(playable(x, m, true) && b.spec_normalize() == moved(x, m, true).spec_normalize());
        lemma_linked(x, b.spec_normalize(), true);
        lemma_linked_normalize(x, b.spec_normalize(), true);
        lemma_follows(x.spec_normalize(), b.spec_normalize());
        lemma_reaches_push(a.spec_normalize(), x.spec_normalize(), b.spec_normalize());
    }
}

/// Where the goal can be reached from an image of a well-formed board, it can
/// be reached from the board.
pub proof fn lemma_can_win_sym(y: Board, moves: Seq<Move>, k: int)
    requires
        y.wf(),
        0 <= k < 8,
        leads(y, moves, Board::spec_solved()),
    ensures
        can_win(y.spec_symmetries()[k]),
        y.spec_symmetries()[k].wf(),
    decreases moves.len(),
{
    let goal = Board::spec_solved();
    let x = y.spec_symmetries()[k];
    y.lemma_sym_cells(k);
    Board::lemma_start_and_goal_symmetric();
    lemma_win_step(x);
    if moves.len() == 0 {
        assert(y == goal);
    } else {
        lemma_leads_first(y, moves, goal);
        let m = moves[0];
        lemma_equivariant(y, m, k, true);
        lemma_can_win_sym(y.spec_mov(m), moves.drop_first(), k);
        let image = move_image(m, k);
        assert(x.legal(image) && can_win(x.spec_mov(image)));
    }
}

/// The goal can be reached from a well-formed board exactly when it can be
/// reached from its canonical form.
pub proof fn lemma_can_win_normalize(b: Board)
    requires
        b.wf(),
    ensures
        can_win(b) <==> can_win(b.spec_normalize()),
{
    b.lemma_normalize_least();
    let k = choose|k: int| 0 <= k < 8 && b.spec_normalize() == b.spec_symmetries()[k];
    let c = b.spec_symmetries()[k];
    let back = sym_inverse(k);
    b.lemma_sym_cells(k);
    lemma_sym_cell_inverse(k, (0, 0));
    b.lemma_sym_compose(k, back);
    assert(c.spec_symmetries()[back] == b);
    if can_win(b) {
        let moves = choose|moves: Seq<Move>| leads(b, moves, Board::spec_solved());
        lemma_can_win_sym(b, moves, k);
    }
    if can_win(c) {
        let moves = choose|moves: Seq<Move>| leads(c, moves, Board::spec_solved());
        lemma_can_win_sym(c, moves, back);
    }
}

/// From the boards of a path that ends at the goal, the goal can be reached
/// by moves.
proof fn lemma_path_can_win(path: Seq<Board>, i: int)
    requires
        is_path(path),
        path.last() == Board::spec_solved(),
        path.first().wf(),
        path.first().canonical(),
        0 <= i < path.len(),
    ensures
        can_win(path[i]),
    decreases path.len() - i,
{
    lemma_path_good(path, i);
    lemma_win_step(path[i]);
    if i < path.len() - 1 {
        lemma_path_can_win(path, i + 1);
        let p = path[i];
        let q = path[i + 1];
        lemma_follows_good(p, q);
        lemma_linked(p, q, true);
        let m = choose|m: Move|
            playable(p, m, true) && q == #[trigger] moved(p, m, true).spec_normalize();
        lemma_move_len(p, m);
        lemma_can_win_normalize(p.spec_mov(m));
        assert(p.legal(m) && can_win(p.spec_mov(m)));
    }
}

/// A well-formed canonical board leads to the goal, with each board put into
/// canonical form on the way, exactly when moves lead from it to the goal.
pub proof fn lemma_wins_is_can_win(c: Board)
    requires
        c.wf(),
        c.canonical(),
    ensures
        wins(c) <==> can_win(c),
{
    lemma_pair_of_ends();
    if wins(c) {
        let path = choose|path: Seq<Board>|
            is_path(path) && path.first() == c && path.last() == Board::spec_solved();
        lemma_path_can_win(path, 0);
    }
    if can_win(c) {
        let moves = choose|moves: Seq<Move>| leads(c, moves, Board::spec_solved());
        lemma_leads_reaches(c, moves, Board::spec_solved());
    }
}

/// Each board of a path from the start is the canonical form of a board that
/// moves lead to from the start.
proof fn lemma_path_from_start(path: Seq<Board>, i: int) -> (b: Board)
    requires
        is_path(path),
        path.first() == Board::spec_default(),
        0 <= i < path.len(),
    ensures
        from_start(b),
        b.wf(),
        b.spec_normalize() == path[i],
    decreases i,
{
    lemma_pair_of_ends();
    let start = Board::spec_default();
    if i == 0 {
        assert(leads(start, Seq::<Move>::empty(), start));
        start
    } else {
        let a = lemma_path_from_start(path, i - 1);
        let q = path[i];
        lemma_follows(path[i - 1], q);
        lemma_linked_unnormalize(a, q, true);
        lemma_linked(a, q, true);
        let m = choose|m: Move|
            playable(a, m, true) && q == #[trigger] moved(a, m, true).spec_normalize();
        let moves = choose|moves: Seq<Move>| leads(start, moves, a);
        lemma_leads_push(start, moves, a, m);
        lemma_move_len(a, m);
        a.spec_mov(m)
    }
}

/// The canonical boards that the start leads to and that lead to the goal,
/// with each board put into canonical form on the way, are the canonical forms
/// of the boards of the game that moves lead to from the start and from which
/// moves lead to the goal.
pub proof fn lemma_solvable_boards_of_the_game()
    ensures
        solvable_from(Board::spec_default()) == solvable_boards_of_the_game(),
        solvable_set() == solvable_boards_of_the_game(),
{
    let start = Board::spec_default();
    lemma_pair_of_ends();
    lemma_solvable_set();
    assert forall|c: Board| solvable_from(start).contains(c) implies solvable_boards_of_the_game(
    ).contains(c) by {
        lemma_reaches_good(start, c);
        lemma_wins_is_can_win(c);
        let path = choose|path: Seq<Board>|
            is_path(path) && path.first() == start && path.last() == c;
        let b = lemma_path_from_start(path, path.len() - 1);
        lemma_can_win_normalize(b);
        assert(from_start(b) && can_win(b) && c == b.spec_normalize());
    }
    assert forall|c: Board| solvable_boards_of_the_game().contains(c) implies solvable_from(
        start,
    ).contains(c) by {
        let b = choose|b: Board| from_start(b) && can_win(b) && c == #[trigger] b.spec_normalize();
        let moves = choose|moves: Seq<Move>| leads(start, moves, b);
        lemma_leads_reaches(start, moves, b);
        lemma_can_win_normalize(b);
        b.lemma_normalize_canonical();
        lemma_wins_is_can_win(c);
    }
    assert(solvable_from(start) =~= solvable_boards_of_the_game());
}

/// The start and the goal are among the solvable boards.
pub proof fn lemma_start_and_goal_solvable()
    ensures
        solvable_boards_of_the_game().contains(Board::spec_default()),
        solvable_boards_of_the_game().contains(Board::spec_solved()),
{
    let start = Board::spec_default();
    let goal = Board::spec_solved();
    lemma_pair_of_ends();
    crate::known_solution::lemma_game_can_be_won();
    assert(leads(start, Seq::<Move>::empty(), start));
    assert(leads(goal, Seq::<Move>::empty(), goal));
    assert(from_start(start) && can_win(start) && start == start.spec_normalize());
    assert(leads(start, crate::known_solution::known_moves(), goal));
    assert(from_start(goal) && can_win(goal) && goal == goal.spec_normalize());
}

} // verus!
