//! All solvable boards, layer by layer.
//!
//! Layer `k` holds canonical boards with `k` pegs. The layers grow backwards
//! from the goal by taking moves back, up to 16 pegs. The boards with pegs and
//! holes exchanged then stand for the boards with 17 pegs that the start
//! leads to, and from there each layer is cut down, going forward, to the
//! boards that a move on the layer above gives.

use crate::board::Board;
use crate::calc_naive::solvable_from;
use crate::theory::{
    lemma_solvable_boards_of_the_game, lemma_solvable_list_unique, lemma_solvable_set,
    solvable_boards_of_the_game,
};
use crate::expand::{
    lemma_flatten_contains, linked, moved, neighbours, possible_moves_par, predecessors,
    reverse_moves_par, successors,
};
use crate::mov::Move;
use crate::parallel::{dedup_boards, intersect_sorted_vecs, par_dedup, views};
use crate::sort::{all_wf, sorted, strictly_sorted, Sort};
use vstd::prelude::*;

verus! {

/// The canonical boards with `k` pegs from which the goal can be reached,
/// found by taking moves back from the goal.
pub open spec fn reverse_layer(k: nat) -> Set<Board>
    decreases k,
{
    if k == 0 {
        Set::empty()
    } else if k == 1 {
        set![Board::spec_solved()]
    } else {
        predecessors(reverse_layer((k - 1) as nat))
    }
}

/// The boards of a set with pegs and holes exchanged.
pub open spec fn inverses(s: Set<Board>) -> Set<Board> {
    Set::new(|c: Board| exists|b: Board| s.contains(b) && c == b.spec_inverse())
}

/// Layer `k` of the solvable boards: the canonical boards with `k` pegs that
/// the goal can be reached from and that a move on a board of the layer above
/// gives. Layer 17 holds the boards of layer 16 of `reverse_layer` with pegs
/// and holes exchanged.
pub open spec fn solvable_layer(k: nat) -> Set<Board>
    decreases 17 - k,
{
    if k >= 17 {
        inverses(reverse_layer(16))
    } else {
        reverse_layer(k).intersect(successors(solvable_layer(k + 1)))
    }
}

/// The board that a solvable board is listed with: pegs and holes exchanged,
/// in canonical form.
pub open spec fn pair_of(b: Board) -> Board {
    b.spec_inverse().spec_normalize()
}

/// Each board of a list, followed by the board it is listed with.
pub open spec fn paired(s: Seq<Board>) -> Seq<Board>
    decreases s.len(),
{
    if s.len() == 0 {
        Seq::empty()
    } else {
        paired(s.drop_last()).push(s.last()).push(pair_of(s.last()))
    }
}

/// The lists hold the layers 0 to 16 of the solvable boards, each in
/// ascending order without repetition.
pub open spec fn is_layering(layers: Seq<Seq<Board>>) -> bool {
    &&& layers.len() == 17
    &&& forall|k: int|
        0 <= k < 17 ==> strictly_sorted(#[trigger] layers[k]) && layers[k].to_set()
            == solvable_layer(k as nat)
}

/// The solvable boards: those of the layers up to 16 pegs, and the boards
/// they are listed with.
pub open spec fn solvable_set() -> Set<Board> {
    Set::new(
        |b: Board|
            exists|k: nat, c: Board|
                k < 17 && #[trigger] solvable_layer(k).contains(c) && (b == c || b == pair_of(c)),
    )
}

/// What a move does to a well-formed board, up to canonical form: it stays
/// well formed, is canonical, and has one peg less, or one more where the
/// move is taken back.
pub proof fn lemma_link_good(b: Board, c: Board, forward: bool)
    requires
        b.wf(),
        linked(b, c, forward),
    ensures
        c.wf(),
        c.canonical(),
        forward ==> c@.len() + 1 == b@.len(),
        !forward ==> c@.len() == b@.len() + 1,
{
    let m = if forward {
        choose|m: Move| b.legal(m) && c == b.spec_mov(m).spec_normalize()
    } else {
        choose|m: Move| b.legal_reverse(m) && c == b.spec_reverse_mov(m).spec_normalize()
    };
    let x = moved(b, m, forward);
    b.lemma_mov_cells(m);
    b.lemma_view_len();
    x.lemma_normalize_canonical();
    x.lemma_sym_len(0);
}

/// The boards of a layer grown backwards from the goal are well formed and
/// canonical, and hold as many pegs as the layer's number says.
pub proof fn lemma_reverse_layer_good(k: nat, b: Board)
    requires
        reverse_layer(k).contains(b),
    ensures
        b.wf(),
        b.canonical(),
        b@.len() == k,
    decreases k,
{
    if k == 1 {
        Board::lemma_solved_cells();
        Board::lemma_start_and_goal_symmetric();
        assert(b@ =~= set![(3int, 3int)]);
    } else if k > 1 {
        let a = choose|a: Board|
            reverse_layer((k - 1) as nat).contains(a) && crate::expand::predecessor(a, b);
        lemma_reverse_layer_good((k - 1) as nat, a);
        lemma_link_good(a, b, false);
    }
}

/// The boards of a layer of the solvable boards are well formed; up to 16
/// pegs they are canonical boards of the layer grown backwards.
pub proof fn lemma_solvable_layer_good(k: nat, b: Board)
    requires
        solvable_layer(k).contains(b),
    ensures
        b.wf(),
        k < 17 ==> b.canonical() && b@.len() == k && reverse_layer(k).contains(b),
{
    if k >= 17 {
        let a = choose|a: Board| reverse_layer(16).contains(a) && b == a.spec_inverse();
        a.lemma_inverse_cells();
    } else {
        lemma_reverse_layer_good(k, b);
    }
}

/// What a list of boards, each followed by the board it is listed with,
/// holds.
pub proof fn lemma_paired_contains(s: Seq<Board>, b: Board)
    ensures
        paired(s).len() == 2 * s.len(),
        paired(s).contains(b) <==> exists|i: int|
            0 <= i < s.len() && (b == #[trigger] s[i] || b == pair_of(s[i])),
        forall|i: int|
            0 <= i < s.len() ==> paired(s)[2 * i] == #[trigger] s[i] && paired(s)[2 * i + 1]
                == pair_of(s[i]),
    decreases s.len(),
{
    if s.len() > 0 {
        let p = s.drop_last();
        lemma_paired_contains(p, b);
        let out = paired(s);
        let n = s.len() as int;
        if paired(p).contains(b) {
            let j = choose|j: int| 0 <= j < paired(p).len() && paired(p)[j] == b;
            assert(out[j] == b);
            let i = choose|i: int| 0 <= i < p.len() && (b == #[trigger] p[i] || b == pair_of(p[i]));
            assert(s[i] == p[i]);
        }
        if out.contains(b) {
            let j = choose|j: int| 0 <= j < out.len() && out[j] == b;
            if j < paired(p).len() {
                assert(paired(p)[j] == b);
                assert(paired(p).contains(b));
            } else {
                assert(b == s[n - 1] || b == pair_of(s[n - 1]));
            }
        }
        if exists|i: int| 0 <= i < s.len() && (b == #[trigger] s[i] || b == pair_of(s[i])) {
            let i = choose|i: int| 0 <= i < s.len() && (b == #[trigger] s[i] || b == pair_of(s[i]));
            if i < n - 1 {
                assert(p[i] == s[i]);
                assert(paired(p).contains(b));
            } else if b == s[i] {
                assert(out[2 * n - 2] == b);
            } else {
                assert(out[2 * n - 1] == b);
            }
        }
        assert forall|i: int| 0 <= i < s.len() implies out[2 * i] == #[trigger] s[i] && out[2 * i
            + 1] == pair_of(s[i]) by {
            if i < n - 1 {
                assert(p[i] == s[i]);
            }
        }
    }
}

/// Lists with the same elements, each as often, hold the same elements.
pub proof fn lemma_multiset_to_set<T>(s: Seq<T>, t: Seq<T>)
    requires
        s.to_multiset() == t.to_multiset(),
    ensures
        s.to_set() == t.to_set(),
        s.len() == t.len(),
{
    broadcast use vstd::seq_lib::group_to_multiset_ensures;

    assert forall|x: T| s.contains(x) <==> t.contains(x) by {
        if s.contains(x) {
            assert(s.to_multiset().count(x) > 0);
            assert(t.to_multiset().count(x) > 0);
            assert(t.contains(x));
        }
        if t.contains(x) {
            assert(t.to_multiset().count(x) > 0);
            assert(s.to_multiset().count(x) > 0);
            assert(s.contains(x));
        }
    }
    assert(s.to_set() =~= t.to_set());
    assert(s.to_multiset().len() == s.len());
    assert(t.to_multiset().len() == t.len());
}

/// The boards of a list are well formed when those of a list that holds them
/// all are.
proof fn lemma_subset_wf(s: Seq<Board>, t: Set<Board>)
    requires
        s.to_set() == t,
        forall|b: Board| t.contains(b) ==> b.wf(),
    ensures
        all_wf(s),
{
    assert forall|i: int| 0 <= i < s.len() implies (#[trigger] s[i]).wf() by {
        assert(s.contains(s[i]));
        assert(s.to_set().contains(s[i]));
    }
}

/// One layer from the one before: the boards that a move leads from, or with
/// `forward` the boards that a move leads to, sorted and without repetition.
fn next_layer(layer: &Vec<Board>, threads: usize, forward: bool) -> (r: Vec<Board>)
    requires
        threads >= 1,
        all_wf(layer@),
    ensures
        strictly_sorted(r@),
        r@.to_set() == neighbours(layer@.to_set(), forward),
        all_wf(r@),
{
    let mut constellations = if forward {
        possible_moves_par(layer.as_slice(), threads)
    } else {
        reverse_moves_par(layer.as_slice(), threads)
    };
    let ghost found = constellations@;
    constellations.fast_sort_unstable_mt(threads);
    proof {
        lemma_multiset_to_set(constellations@, found);
    }
    let r = if forward {
        dedup_boards(constellations.as_slice())
    } else {
        par_dedup(&constellations, threads)
    };
    proof {
        assert forall|b: Board| constellations@.to_set().contains(b) implies b.wf() by {
        }
        lemma_subset_wf(r@, constellations@.to_set());
    }
    r
}

/// The layers 0 to 16 grown backwards from the goal.
fn reverse_phase(threads: usize) -> (visited: Vec<Vec<Board>>)
    requires
        threads >= 1,
    ensures
        visited.len() == 17,
        forall|k: int|
            0 <= k < 17 ==> strictly_sorted((#[trigger] visited[k])@) && visited[k]@.to_set()
                == reverse_layer(k as nat),
{
    let mut visited: Vec<Vec<Board>> = Vec::new();
    visited.push(Vec::new());
    let mut first: Vec<Board> = Vec::new();
    first.push(Board::solved());
    visited.push(first);
    proof {
        assert(visited[0]@.to_set() =~= reverse_layer(0));
        assert(visited[1]@[0] == Board::spec_solved());
        assert(visited[1]@.to_set() =~= reverse_layer(1)) by {
            assert forall|b: Board| visited[1]@.contains(b) <==> reverse_layer(1).contains(b) by {
                if reverse_layer(1).contains(b) {
                    assert(visited[1]@[0] == b);
                }
            }
        }
    }
    let mut i: usize = 1;
    while i < (Board::SLOTS - 1) / 2
        invariant
            1 <= i <= 16,
            threads >= 1,
            visited.len() == i + 1,
            forall|k: int|
                0 <= k <= i ==> strictly_sorted((#[trigger] visited[k])@) && visited[k]@.to_set()
                    == reverse_layer(k as nat),
        decreases 16 - i,
    {
        proof {
            assert forall|b: Board| visited[i as int]@.to_set().contains(b) implies b.wf() by {
                lemma_reverse_layer_good(i as nat, b);
            }
            lemma_subset_wf(visited[i as int]@, visited[i as int]@.to_set());
        }
        let constellations = next_layer(&visited[i], threads, false);
        visited.push(constellations);
        i = i + 1;
    }
    visited
}

/// The boards of a list with pegs and holes exchanged.
fn invert_all(layer: &Vec<Board>) -> (r: Vec<Board>)
    ensures
        r@ == layer@.map_values(|b: Board| b.spec_inverse()),
        r@.to_set() == inverses(layer@.to_set()),
        all_wf(r@),
{
    let mut r: Vec<Board> = Vec::new();
    let mut i: usize = 0;
    while i < layer.len()
        invariant
            0 <= i <= layer.len(),
            r@ == layer@.subrange(0, i as int).map_values(|b: Board| b.spec_inverse()),
            all_wf(r@),
        decreases layer.len() - i,
    {
        r.push(layer[i].inverse());
        i = i + 1;
        proof {
            assert(r@ =~= layer@.subrange(0, i as int).map_values(|b: Board| b.spec_inverse()));
        }
    }
    proof {
        assert(layer@.subrange(0, layer.len() as int) =~= layer@);
        assert forall|c: Board| r@.contains(c) <==> inverses(layer@.to_set()).contains(c) by {
            if r@.contains(c) {
                let k = choose|k: int| 0 <= k < r@.len() && r@[k] == c;
                assert(layer@.contains(layer@[k]));
            }
            if inverses(layer@.to_set()).contains(c) {
                let b = choose|b: Board| layer@.to_set().contains(b) && c == b.spec_inverse();
                let k = choose|k: int| 0 <= k < layer@.len() && layer@[k] == b;
                assert(r@[k] == c);
            }
        }
        assert(r@.to_set() =~= inverses(layer@.to_set()));
    }
    r
}

/// Cuts the layers 16 down to 1 to the boards that a move on the layer above
/// gives.
fn forward_phase(visited: &mut Vec<Vec<Board>>, threads: usize)
    requires
        threads >= 1,
        old(visited).len() == 18,
        forall|k: int|
            0 <= k < 17 ==> strictly_sorted((#[trigger] old(visited)[k])@) && old(
                visited,
            )[k]@.to_set() == reverse_layer(k as nat),
        old(visited)[17]@.to_set() == solvable_layer(17),
    ensures
        final(visited).len() == 18,
        is_layering(views(final(visited)@).subrange(0, 17)),
{
    let mut remaining: usize = (Board::SLOTS - 1) / 2 + 1;
    while remaining >= 2
        invariant
            1 <= remaining <= 17,
            threads >= 1,
            visited.len() == 18,
            forall|k: int|
                0 <= k < remaining ==> strictly_sorted((#[trigger] visited[k])@)
                    && visited[k]@.to_set() == reverse_layer(k as nat),
            forall|k: int|
                remaining <= k < 17 ==> strictly_sorted((#[trigger] visited[k])@)
                    && visited[k]@.to_set() == solvable_layer(k as nat),
            visited[remaining as int]@.to_set() == solvable_layer(remaining as nat),
        decreases remaining,
    {
        proof {
            assert forall|b: Board| visited[remaining as int]@.to_set().contains(
                b,
            ) implies b.wf() by {
                lemma_solvable_layer_good(remaining as nat, b);
            }
            lemma_subset_wf(visited[remaining as int]@, visited[remaining as int]@.to_set());
        }
        let constellations = next_layer(&visited[remaining], threads, true);
        let pruned = intersect_sorted_vecs(
            visited[remaining - 1].as_slice(),
            constellations.as_slice(),
        );
        visited[remaining - 1] = pruned;
        remaining = remaining - 1;
    }
    proof {
        let layers = views(visited@).subrange(0, 17);
        assert forall|k: int| 0 <= k < 17 implies strictly_sorted(#[trigger] layers[k])
            && layers[k].to_set() == solvable_layer(k as nat) by {
            assert(layers[k] == visited[k]@);
            if k == 0 {
                assert(solvable_layer(0) =~= reverse_layer(0));
            }
        }
    }
}

/// The boards of the layers 0 to 16, each followed by the canonical form of
/// the board with pegs and holes exchanged.
fn collect(visited: &Vec<Vec<Board>>) -> (r: Vec<Board>)
    requires
        visited.len() >= 17,
    ensures
        r@ == paired(views(visited@).subrange(0, 17).flatten()),
{
    let mut solvable: Vec<Board> = Vec::new();
    let ghost layers = views(visited@).subrange(0, 17);
    let mut k: usize = 0;
    while k < (Board::SLOTS - 1) / 2 + 1
        invariant
            0 <= k <= 17,
            visited.len() >= 17,
            layers == views(visited@).subrange(0, 17),
            solvable@ == paired(layers.subrange(0, k as int).flatten()),
        decreases 17 - k,
    {
        let layer = &visited[k];
        let ghost done = layers.subrange(0, k as int).flatten();
        let mut i: usize = 0;
        while i < layer.len()
            invariant
                0 <= i <= layer.len(),
                solvable@ == paired(done + layer@.subrange(0, i as int)),
            decreases layer.len() - i,
        {
            let b = layer[i];
            solvable.push(b);
            solvable.push(b.inverse().normalize());
            i = i + 1;
            proof {
                let now = done + layer@.subrange(0, i as int);
                assert(now.drop_last() =~= done + layer@.subrange(0, i - 1));
                assert(now.last() == b);
            }
        }
        k = k + 1;
        proof {
            assert(layer@.subrange(0, layer.len() as int) =~= layer@);
            let head = layers.subrange(0, k - 1);
            assert(layers.subrange(0, k as int) =~= head.push(layer@));
            head.lemma_flatten_push(layer@);
        }
    }
    proof {
        assert(layers.subrange(0, 17) =~= layers);
    }
    solvable
}

/// The list made of the layers holds the solvable boards, and nothing else.
proof fn lemma_solvable_list_set(layers: Seq<Seq<Board>>, r: Seq<Board>)
    requires
        is_layering(layers),
        r == paired(layers.flatten()),
    ensures
        r.to_set() == solvable_set(),
{
    let flat = layers.flatten();
    assert forall|b: Board| r.contains(b) implies solvable_set().contains(b) by {
        lemma_paired_contains(flat, b);
        let i = choose|i: int|
            0 <= i < flat.len() && (b == #[trigger] flat[i] || b == pair_of(flat[i]));
        let c = flat[i];
        assert(flat.contains(c));
        lemma_flatten_contains(layers, c);
        let k = choose|k: int| 0 <= k < layers.len() && (#[trigger] layers[k]).contains(c);
        assert(layers[k].to_set().contains(c));
        assert(solvable_layer(k as nat).contains(c));
    }
    assert forall|b: Board| solvable_set().contains(b) implies r.contains(b) by {
        let (k, c) = choose|k: nat, c: Board|
            k < 17 && #[trigger] solvable_layer(k).contains(c) && (b == c || b == pair_of(c));
        assert(layers[k as int].to_set().contains(c));
        assert(layers[k as int].contains(c));
        lemma_flatten_contains(layers, c);
        let i = choose|i: int| 0 <= i < flat.len() && flat[i] == c;
        assert(b == flat[i] || b == pair_of(flat[i]));
        lemma_paired_contains(flat, b);
    }
    assert(r.to_set() =~= solvable_set());
}

/// A solvable board is well formed and canonical, and the board it is listed
/// with is solvable too.
pub proof fn lemma_solvable_good(b: Board)
    requires
        solvable_set().contains(b),
    ensures
        b.wf(),
        b.canonical(),
        solvable_set().contains(pair_of(b)),
{
    let (k, c) = choose|k: nat, c: Board|
        k < 17 && #[trigger] solvable_layer(k).contains(c) && (b == c || b == pair_of(c));
    lemma_solvable_layer_good(k, c);
    c.lemma_pairing_involution();
    if b == c {
        assert(solvable_layer(k).contains(c) && (pair_of(b) == c || pair_of(b) == pair_of(c)));
    } else {
        assert(pair_of(b) == c);
        assert(solvable_layer(k).contains(c) && (pair_of(b) == c || pair_of(b) == pair_of(c)));
    }
}

/// What the list of all solvable boards holds, given the layers it was made
/// from.
pub proof fn lemma_solvable_list(layers: Seq<Seq<Board>>, r: Seq<Board>)
    requires
        is_layering(layers),
        r == paired(layers.flatten()),
    ensures
        r.to_set() == solvable_set(),
        forall|i: int| 0 <= i < r.len() ==> (#[trigger] r[i]).wf() && r[i].canonical(),
        forall|b: Board| r.contains(b) ==> r.contains(#[trigger] pair_of(b)),
        r.len() % 2 == 0,
        forall|i: int| 0 <= i < r.len() / 2 ==> #[trigger] r[2 * i + 1] == pair_of(r[2 * i]),
{
    let flat = layers.flatten();
    lemma_solvable_list_set(layers, r);
    assert forall|b: Board| r.contains(b) implies r.contains(#[trigger] pair_of(b)) by {
        assert(r.to_set().contains(b));
        lemma_solvable_good(b);
        assert(r.to_set().contains(pair_of(b)));
    }
    assert forall|i: int| 0 <= i < r.len() implies (#[trigger] r[i]).wf() && r[i].canonical() by {
        assert(r.contains(r[i]));
        assert(r.to_set().contains(r[i]));
        lemma_solvable_good(r[i]);
    }
    lemma_paired_contains(flat, Board::spec_solved());
    assert forall|i: int| 0 <= i < r.len() / 2 implies #[trigger] r[2 * i + 1] == pair_of(
        r[2 * i],
    ) by {
        assert(r[2 * i] == flat[i]);
    }
}

/// All solvable boards: the canonical forms of the boards that moves lead to
/// from the start and from which moves lead to the goal, each once. They come
/// layer by layer from 1 peg to 16,
/// each layer in ascending order, and each board is followed by the canonical
/// form of the board with pegs and holes exchanged, which holds 17 pegs or
/// more. The result does not depend on `threads`, the number of workers; 0
/// stands for 1. Where the system cannot start that many workers, the
/// chunks of a layer are worked on one after the other and the layer is
/// sorted on the calling thread; the sort never asks for more than
/// `MAX_SORT_WORKERS` of them.
pub fn calculate_all_solutions(threads: usize) -> (r: Vec<Board>)
    ensures
        r@.to_set() == solvable_boards_of_the_game(),
        r@.no_duplicates(),
        r@.len() == solvable_boards_of_the_game().len(),
        r@.to_set() == solvable_from(Board::spec_default()),
        exists|layers: Seq<Seq<Board>>| is_layering(layers) && r@ == paired(layers.flatten()),
        r@.to_set() == solvable_set(),
        forall|i: int| 0 <= i < r.len() ==> (#[trigger] r[i]).wf() && r[i].canonical(),
        forall|b: Board| r@.contains(b) ==> r@.contains(#[trigger] pair_of(b)),
        r.len() % 2 == 0,
        forall|i: int| 0 <= i < r.len() / 2 ==> #[trigger] r[2 * i + 1] == pair_of(r[2 * i]),
{
    let threads = if threads == 0 {
        1
    } else {
        threads
    };
    let mut visited = reverse_phase(threads);
    let inverted = invert_all(&visited[(Board::SLOTS - 1) / 2]);
    visited.push(inverted);
    forward_phase(&mut visited, threads);
    let solvable = collect(&visited);
    proof {
        let layers = views(visited@).subrange(0, 17);
        lemma_solvable_list(layers, solvable@);
        lemma_solvable_list_unique(layers, solvable@);
        lemma_solvable_set();
        lemma_solvable_boards_of_the_game();
    }
    solvable
}

} // verus!
