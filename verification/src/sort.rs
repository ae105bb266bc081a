//! Sorting boards by their compressed form with a radix sort.

use crate::board::Board;
use vstd::prelude::*;
use voracious_radix_sort::RadixSort;

verus! {

/// The boards stand in the order of their words, equal ones side by side.
pub open spec fn sorted(s: Seq<Board>) -> bool {
    forall|i: int, j: int| 0 <= i < j < s.len() ==> s[i].0 <= s[j].0
}

/// The boards stand in the order of their words, and no board stands twice.
pub open spec fn strictly_sorted(s: Seq<Board>) -> bool {
    forall|i: int, j: int| 0 <= i < j < s.len() ==> s[i].0 < s[j].0
}

/// Every board of the list is well formed.
pub open spec fn all_wf(s: Seq<Board>) -> bool {
    forall|i: int| 0 <= i < s.len() ==> (#[trigger] s[i]).wf()
}

/// The compressed forms of the boards of a list.
pub open spec fn keys_of(s: Seq<Board>) -> Seq<u64> {
    s.map_values(|b: Board| b.spec_compressed())
}

/// The boards that the compressed forms of a list stand for.
pub open spec fn boards_of(k: Seq<u64>) -> Seq<Board> {
    k.map_values(|c: u64| Board::spec_from_compressed(c))
}

/// `voracious_sort` of voracious_radix_sort, on a vector of `u64`: the
/// single-threaded radix sort. Believed, not proved: afterwards the vector
/// holds the same numbers, each as often as before, in ascending order.
#[verifier::external_body]
fn radix_sort(keys: &mut Vec<u64>)
    ensures
        final(keys)@.to_multiset() == old(keys)@.to_multiset(),
        forall|i: int, j: int| 0 <= i < j < final(keys)@.len() ==> final(keys)@[i] <= final(keys)@[j],
{
    keys.voracious_sort();
}

/// The most workers that the sort is asked to start at once.
pub const MAX_SORT_WORKERS: usize = 256;

/// `voracious_mt_sort` of voracious_radix_sort, on a vector of `u64`: the
/// sort on several threads. Below 2,000,000 keys it is rayon's parallel
/// quicksort on rayon's own workers; from there on it is the radix sort with
/// a pool of `threads` workers, which it builds for the call and without
/// which it does not go on. So a pool of `threads` workers is built first and
/// dropped again, to see that the system can start them: where it cannot,
/// nothing is sorted, and the count is kept between 2 and `MAX_SORT_WORKERS`.
/// Believed, not proved: where the result is true, the vector holds the same
/// numbers afterwards, each as often as before, in ascending order; where it
/// is false, the vector is as before.
#[verifier::external_body]
fn radix_sort_mt(keys: &mut Vec<u64>, threads: usize) -> (done: bool)
    requires
        2 <= threads <= MAX_SORT_WORKERS,
    ensures
        done ==> final(keys)@.to_multiset() == old(keys)@.to_multiset(),
        done ==> forall|i: int, j: int|
            0 <= i < j < final(keys)@.len() ==> final(keys)@[i] <= final(keys)@[j],
        !done ==> final(keys)@ == old(keys)@,
{
    match rayon::ThreadPoolBuilder::new().num_threads(threads).build() {
        Ok(pool) => {
            drop(pool);
            keys.voracious_mt_sort(threads);
            true
        },
        Err(_) => false,
    }
}

/// Lists with the same elements, each as often, still have the same elements
/// after a function is applied to each.
pub proof fn lemma_map_multiset<A, B>(s: Seq<A>, t: Seq<A>, f: spec_fn(A) -> B)
    requires
        s.to_multiset() == t.to_multiset(),
    ensures
        s.map_values(f).to_multiset() == t.map_values(f).to_multiset(),
    decreases s.len(),
{
    broadcast use vstd::seq_lib::group_to_multiset_ensures;

    if s.len() == 0 {
        assert(t.to_multiset().len() == 0);
        assert(t.len() == 0);
        assert(s.map_values(f) =~= t.map_values(f));
    } else {
        let x = s.last();
        assert(s.to_multiset().count(x) > 0);
        assert(t.contains(x));
        let j = choose|j: int| 0 <= j < t.len() && t[j] == x;
        let s1 = s.drop_last();
        let t1 = t.remove(j);
        vstd::seq_lib::to_multiset_remove(s, s.len() - 1);
        vstd::seq_lib::to_multiset_remove(t, j);
        assert(s.remove(s.len() - 1) =~= s1);
        assert(s1.to_multiset() =~= t1.to_multiset());
        lemma_map_multiset(s1, t1, f);
        let sm = s.map_values(f);
        let tm = t.map_values(f);
        vstd::seq_lib::to_multiset_remove(sm, s.len() - 1);
        vstd::seq_lib::to_multiset_remove(tm, j);
        assert(sm.remove(s.len() - 1) =~= s1.map_values(f));
        assert(tm.remove(j) =~= t1.map_values(f));
        assert(sm.to_multiset().count(f(x)) > 0);
        assert(tm.to_multiset().count(f(x)) > 0);
        assert(sm.to_multiset() =~= sm.remove(s.len() - 1).to_multiset().insert(f(x)));
        assert(tm.to_multiset() =~= tm.remove(j).to_multiset().insert(f(x)));
    }
}

/// The compressed forms of a list of boards.
fn compress_all(v: &Vec<Board>) -> (keys: Vec<u64>)
    ensures
        keys@ == keys_of(v@),
{
    let mut keys: Vec<u64> = Vec::with_capacity(v.len());
    let mut i: usize = 0;
    while i < v.len()
        invariant
            0 <= i <= v.len(),
            keys@ == keys_of(v@.subrange(0, i as int)),
        decreases v.len() - i,
    {
        keys.push(v[i].to_compressed_repr());
        i = i + 1;
        proof {
            assert(keys@ =~= keys_of(v@.subrange(0, i as int)));
        }
    }
    proof {
        assert(v@.subrange(0, v.len() as int) =~= v@);
    }
    keys
}

/// Puts the boards of a list of compressed forms in the place of what the
/// vector held.
fn expand_all(keys: &Vec<u64>, v: &mut Vec<Board>)
    ensures
        final(v)@ == boards_of(keys@),
{
    v.clear();
    let mut i: usize = 0;
    while i < keys.len()
        invariant
            0 <= i <= keys.len(),
            v@ == boards_of(keys@.subrange(0, i as int)),
        decreases keys.len() - i,
    {
        v.push(Board::from_compressed_repr(keys[i]));
        i = i + 1;
        proof {
            assert(v@ =~= boards_of(keys@.subrange(0, i as int)));
        }
    }
    proof {
        assert(keys@.subrange(0, keys.len() as int) =~= keys@);
    }
}

/// What sorting the compressed forms and expanding them again does to a list
/// of well-formed boards.
proof fn lemma_sorted_keys(before: Seq<Board>, keys: Seq<u64>, after: Seq<Board>)
    requires
        all_wf(before),
        keys.to_multiset() == keys_of(before).to_multiset(),
        forall|i: int, j: int| 0 <= i < j < keys.len() ==> keys[i] <= keys[j],
        after == boards_of(keys),
    ensures
        after.to_multiset() == before.to_multiset(),
        sorted(after),
        all_wf(after),
{
    broadcast use vstd::seq_lib::group_to_multiset_ensures;

    let f = |c: u64| Board::spec_from_compressed(c);
    lemma_map_multiset(keys, keys_of(before), f);
    assert(keys_of(before).map_values(f) =~= before) by {
        assert forall|i: int| 0 <= i < before.len() implies keys_of(before).map_values(f)[i]
            == before[i] by {
            before[i].lemma_compress_roundtrip();
        }
    }
    assert forall|i: int| 0 <= i < after.len() implies (#[trigger] after[i]).wf() by {
        Board::lemma_from_compressed_cells(keys[i]);
    }
    assert forall|i: int, j: int| 0 <= i < j < after.len() implies after[i].0 <= after[j].0 by {
        assert(keys.to_multiset().count(keys[i]) > 0);
        assert(keys.to_multiset().count(keys[j]) > 0);
        assert(keys_of(before).contains(keys[i]));
        assert(keys_of(before).contains(keys[j]));
        let a = choose|a: int| 0 <= a < before.len() && keys_of(before)[a] == keys[i];
        let b = choose|b: int| 0 <= b < before.len() && keys_of(before)[b] == keys[j];
        before[a].lemma_compress_roundtrip();
        before[b].lemma_compress_roundtrip();
        before[a].lemma_compress_monotonic(before[b]);
        before[b].lemma_compress_monotonic(before[a]);
    }
}

/// Sorting in place, fast and without regard to the order of equal elements.
pub trait Sort: Sized {
    /// What the sort asks of the elements.
    spec fn sortable(&self) -> bool;

    /// The collection holds what `before` held, each element as often, in
    /// ascending order.
    spec fn sorted_from(&self, before: &Self) -> bool;

    /// Sorts on the calling thread.
    fn fast_sort_unstable(&mut self)
        requires
            old(self).sortable(),
        ensures
            final(self).sorted_from(old(self)),
    ;

    /// Sorts with `threads` workers, of which at most `MAX_SORT_WORKERS` are
    /// started; with one or none, or where the system cannot start them, on
    /// the calling thread.
    fn fast_sort_unstable_mt(&mut self, threads: usize)
        requires
            old(self).sortable(),
        ensures
            final(self).sorted_from(old(self)),
    ;
}

/// Boards are sorted by their compressed form, which for well-formed boards is
/// the order of their words.
impl Sort for Vec<Board> {
    /// Every board is well formed.
    open spec fn sortable(&self) -> bool {
        all_wf(self@)
    }

    open spec fn sorted_from(&self, before: &Self) -> bool {
        &&& self@.to_multiset() == before@.to_multiset()
        &&& sorted(self@)
        &&& all_wf(self@)
    }

    fn fast_sort_unstable(&mut self) {
        let mut keys = compress_all(self);
        radix_sort(&mut keys);
        let ghost before = self@;
        expand_all(&keys, self);
        proof {
            lemma_sorted_keys(before, keys@, self@);
        }
    }

    fn fast_sort_unstable_mt(&mut self, threads: usize) {
        let mut keys = compress_all(self);
        let workers = if threads <= MAX_SORT_WORKERS {
            threads
        } else {
            MAX_SORT_WORKERS
        };
        let done = workers >= 2 && radix_sort_mt(&mut keys, workers);
        if !done {
            radix_sort(&mut keys);
        }
        let ghost before = self@;
        expand_all(&keys, self);
        proof {
            lemma_sorted_keys(before, keys@, self@);
        }
    }
}

} // verus!
