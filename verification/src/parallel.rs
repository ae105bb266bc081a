//! Work on long lists in contiguous chunks: the chunks that a number of
//! workers would share between them, mapped one by one, joined in their order,
//! and freed of repeated elements.

use crate::board::Board;
use crate::sort::{sorted, strictly_sorted};
use rayon::iter::{IndexedParallelIterator, ParallelIterator};
use rayon::slice::ParallelSlice;
use vstd::prelude::*;

verus! {

/// The lists of a list of vectors.
pub open spec fn views<T>(v: Seq<Vec<T>>) -> Seq<Seq<T>> {
    v.map_values(|c: Vec<T>| c@)
}

/// Whether a list of length `len` is given to `n` workers as a whole: it is
/// when there is one worker, or fewer than 100 elements for each.
pub open spec fn single_chunk(len: nat, n: nat) -> bool {
    n == 1 || len < 100 * n
}

/// The length of the chunks of a list of length `len` that is shared between
/// `n` workers: the `n`-th part, rounded up.
pub open spec fn chunk_size(len: nat, n: nat) -> nat {
    if n == 0 {
        0
    } else if len % n == 0 {
        len / n
    } else {
        len / n + 1
    }
}

/// A list cut into pieces of `size` elements, the last of which may be
/// shorter.
pub open spec fn split<T>(s: Seq<T>, size: nat) -> Seq<Seq<T>>
    decreases s.len(),
{
    if s.len() == 0 {
        Seq::empty()
    } else if size == 0 || s.len() <= size {
        seq![s]
    } else {
        seq![s.subrange(0, size as int)] + split(s.subrange(size as int, s.len() as int), size)
    }
}

/// The chunks in which `n` workers take a list: the whole list where it is
/// short, else pieces of `chunk_size` elements.
pub open spec fn chunks<T>(s: Seq<T>, n: nat) -> Seq<Seq<T>> {
    if single_chunk(s.len(), n) {
        seq![s]
    } else {
        split(s, chunk_size(s.len(), n))
    }
}

/// A list without the elements that repeat the one before them.
pub open spec fn dedup<T>(s: Seq<T>) -> Seq<T>
    decreases s.len(),
{
    if s.len() <= 1 {
        s
    } else if s[s.len() - 1] == s[s.len() - 2] {
        dedup(s.drop_last())
    } else {
        dedup(s.drop_last()).push(s.last())
    }
}

/// The pieces of a cut, put together again, are the list.
pub proof fn lemma_split_flatten<T>(s: Seq<T>, size: nat)
    ensures
        split(s, size).flatten() == s,
        forall|i: int| 0 <= i < split(s, size).len() ==> (#[trigger] split(s, size)[i]).len() > 0,
    decreases s.len(),
{
    if s.len() == 0 {
        assert(split(s, size).flatten() =~= s);
    } else if size == 0 || s.len() <= size {
        seq![s].lemma_flatten_one_element();
        assert(split(s, size).flatten() =~= s);
    } else {
        let head = s.subrange(0, size as int);
        let tail = s.subrange(size as int, s.len() as int);
        lemma_split_flatten(tail, size);
        vstd::seq_lib::lemma_flatten_concat(seq![head], split(tail, size));
        seq![head].lemma_flatten_one_element();
        assert(head + tail =~= s);
    }
}

/// The chunks of a list, put together again, are the list, and a list that
/// is not empty has no empty chunk.
pub proof fn lemma_chunks_flatten<T>(s: Seq<T>, n: nat)
    ensures
        chunks(s, n).flatten() == s,
        s.len() > 0 ==> forall|i: int|
            0 <= i < chunks(s, n).len() ==> (#[trigger] chunks(s, n)[i]).len() > 0,
{
    if single_chunk(s.len(), n) {
        seq![s].lemma_flatten_one_element();
        assert(chunks(s, n).flatten() =~= s);
    } else {
        lemma_split_flatten(s, chunk_size(s.len(), n));
    }
}

/// What is left of a list without repetitions: its first and last element
/// stay, it is not longer, and it holds the same elements.
pub proof fn lemma_dedup_ends<T>(s: Seq<T>)
    ensures
        dedup(s).len() <= s.len(),
        s.len() > 0 ==> dedup(s).len() > 0 && dedup(s).first() == s.first() && dedup(s).last()
            == s.last(),
        forall|x: T| dedup(s).contains(x) <==> s.contains(x),
    decreases s.len(),
{
    if s.len() > 1 {
        let p = s.drop_last();
        lemma_dedup_ends(p);
        let d = dedup(p);
        assert(s =~= p.push(s.last()));
        assert forall|x: T| dedup(s).contains(x) <==> s.contains(x) by {
            if s.contains(x) {
                let i = choose|i: int| 0 <= i < s.len() && s[i] == x;
                if i < p.len() {
                    assert(p[i] == x);
                    assert(p.contains(x));
                    assert(d.contains(x));
                    let j = choose|j: int| 0 <= j < d.len() && d[j] == x;
                    assert(dedup(s)[j] == x);
                } else if s[s.len() - 1] == s[s.len() - 2] {
                    assert(p[p.len() - 1] == x);
                    assert(p.contains(x));
                    assert(d.contains(x));
                    let j = choose|j: int| 0 <= j < d.len() && d[j] == x;
                    assert(dedup(s)[j] == x);
                } else {
                    assert(dedup(s)[d.len() as int] == x);
                }
            }
            if dedup(s).contains(x) {
                let j = choose|j: int| 0 <= j < dedup(s).len() && dedup(s)[j] == x;
                if j < d.len() {
                    assert(d[j] == x);
                    assert(d.contains(x));
                    assert(p.contains(x));
                    let i = choose|i: int| 0 <= i < p.len() && p[i] == x;
                    assert(s[i] == x);
                } else {
                    assert(s[s.len() - 1] == x);
                }
            }
        }
    }
}

/// A list that holds nothing twice has no repetitions to lose.
pub proof fn lemma_dedup_same<T>(s: Seq<T>)
    requires
        s.no_duplicates(),
    ensures
        dedup(s) == s,
    decreases s.len(),
{
    if s.len() > 1 {
        lemma_dedup_same(s.drop_last());
        assert(s.drop_last().push(s.last()) =~= s);
    }
}

/// Removing repetitions from a list made of two: the parts are treated one
/// by one, and where the first ends with what the second begins with, one of
/// the two goes.
pub proof fn lemma_dedup_concat<T>(a: Seq<T>, b: Seq<T>)
    requires
        a.len() > 0,
        b.len() > 0,
    ensures
        dedup(a + b) == if a.last() == b.first() {
            dedup(a).drop_last() + dedup(b)
        } else {
            dedup(a) + dedup(b)
        },
    decreases b.len(),
{
    lemma_dedup_ends(a);
    lemma_dedup_ends(b);
    let s = a + b;
    if b.len() == 1 {
        assert(s.drop_last() =~= a);
        assert(s.last() == b[0]);
        assert(s[s.len() - 2] == a.last());
        assert(dedup(b) =~= seq![b[0]]);
        if a.last() == b.first() {
            assert(dedup(a).drop_last() + dedup(b) =~= dedup(a));
        } else {
            assert(dedup(a) + dedup(b) =~= dedup(a).push(b[0]));
        }
    } else {
        let bp = b.drop_last();
        lemma_dedup_concat(a, bp);
        lemma_dedup_ends(bp);
        assert(s.drop_last() =~= a + bp);
        assert(s.last() == b.last());
        assert(s[s.len() - 2] == b[b.len() - 2]);
        if b[b.len() - 1] == b[b.len() - 2] {
        } else if a.last() == b.first() {
            assert((dedup(a).drop_last() + dedup(bp)).push(b.last()) =~= dedup(a).drop_last()
                + dedup(bp).push(b.last()));
        } else {
            assert((dedup(a) + dedup(bp)).push(b.last()) =~= dedup(a) + dedup(bp).push(b.last()));
        }
    }
}

/// A sorted list without repetitions is strictly sorted.
pub proof fn lemma_dedup_sorted(s: Seq<Board>)
    requires
        sorted(s),
    ensures
        strictly_sorted(dedup(s)),
        dedup(s).to_set() == s.to_set(),
    decreases s.len(),
{
    lemma_dedup_ends(s);
    assert(dedup(s).to_set() =~= s.to_set());
    if s.len() > 1 {
        let p = s.drop_last();
        lemma_dedup_sorted(p);
        lemma_dedup_ends(p);
        let d = dedup(p);
        if s[s.len() - 1] != s[s.len() - 2] {
            assert forall|i: int, j: int| 0 <= i < j < dedup(s).len() implies dedup(s)[i].0
                < dedup(s)[j].0 by {
                if j == d.len() {
                    assert(d.contains(d[i]));
                    assert(p.contains(d[i]));
                    let k = choose|k: int| 0 <= k < p.len() && p[k] == d[i];
                    assert(s[k].0 <= s[s.len() - 2].0);
                    assert(s[s.len() - 2].0 <= s[s.len() - 1].0);
                }
            }
        }
    } else {
        assert(strictly_sorted(dedup(s)));
    }
}

/// The vector without the boards that repeat the one before them.
pub fn dedup_boards(v: &[Board]) -> (r: Vec<Board>)
    ensures
        r@ == dedup(v@),
        sorted(v@) ==> strictly_sorted(r@) && r@.to_set() == v@.to_set(),
{
    let mut r: Vec<Board> = Vec::new();
    let mut i: usize = 0;
    while i < v.len()
        invariant
            0 <= i <= v.len(),
            r@ == dedup(v@.subrange(0, i as int)),
        decreases v.len() - i,
    {
        proof {
            assert(v@.subrange(0, i + 1).drop_last() =~= v@.subrange(0, i as int));
        }
        if i == 0 || v[i].0 != v[i - 1].0 {
            r.push(v[i]);
        }
        i = i + 1;
    }
    proof {
        assert(v@.subrange(0, v.len() as int) =~= v@);
        if sorted(v@) {
            lemma_dedup_sorted(v@);
        }
    }
    r
}

/// The lists of a vector of vectors, one behind the other in one vector.
pub fn par_join<T: Copy>(slices: &Vec<Vec<T>>) -> (r: Vec<T>)
    ensures
        r@ == views(slices@).flatten(),
{
    let mut r: Vec<T> = Vec::new();
    let mut i: usize = 0;
    while i < slices.len()
        invariant
            0 <= i <= slices.len(),
            r@ == views(slices@.subrange(0, i as int)).flatten(),
        decreases slices.len() - i,
    {
        let part = &slices[i];
        let ghost before = r@;
        r.reserve(part.len());
        let mut j: usize = 0;
        while j < part.len()
            invariant
                0 <= j <= part.len(),
                r@ == before + part@.subrange(0, j as int),
            decreases part.len() - j,
        {
            r.push(part[j]);
            j = j + 1;
            proof {
                assert(r@ =~= before + part@.subrange(0, j as int));
            }
        }
        i = i + 1;
        proof {
            assert(part@.subrange(0, part.len() as int) =~= part@);
            let head = views(slices@.subrange(0, i - 1));
            assert(views(slices@.subrange(0, i as int)) =~= head.push(part@));
            head.lemma_flatten_push(part@);
        }
    }
    proof {
        assert(slices@.subrange(0, slices.len() as int) =~= slices@);
    }
    r
}

/// `out` is what `f` may return for a slice that holds `chunk`.
pub open spec fn maps_to<T, R, F: Fn(&[T]) -> R>(f: F, chunk: Seq<T>, out: R) -> bool {
    exists|c: &[T]| c@ == chunk && call_ensures(f, (c,), out)
}

/// `parts` holds, chunk by chunk, what `f` may return for the chunks in which
/// `n` workers take `s`.
pub open spec fn mapped_chunks<T, R, F: Fn(&[T]) -> R>(
    f: F,
    s: Seq<T>,
    n: nat,
    parts: Seq<R>,
) -> bool {
    &&& parts.len() == chunks(s, n).len()
    &&& forall|i: int| 0 <= i < parts.len() ==> maps_to(f, chunks(s, n)[i], #[trigger] parts[i])
}

proof fn lemma_chunk_size(len: nat, n: nat)
    by (nonlinear_arith)
    requires
        n >= 2,
        len >= 100 * n,
    ensures
        len / n >= 100,
        len / n < len,
{
}

/// `par_chunks`, `map` and `collect` of rayon, in a pool of `nthreads` workers
/// built for this: `f` is called on each piece of `size` elements of the list,
/// the pieces being shared between the workers. Believed, not proved: where
/// the pool can be built, the result holds for each piece, in the order of the
/// pieces, what that call of `f` returned.
///
/// The workers are rayon's, as those of the radix sort are. The pool lives
/// for this one call: it is built here and dropped at the end, so no worker
/// outlasts the call. The caller waits for the workers and takes no piece
/// itself.
#[verifier::external_body]
fn spawn_map_chunks<T: Sync, R: Send, F: Fn(&[T]) -> R + Sync>(
    t: &[T],
    size: usize,
    nthreads: usize,
    f: &F,
) -> (r: Option<Vec<R>>)
    requires
        size > 0,
        forall|c: &[T]| call_requires(*f, (c,)),
    ensures
        r matches Some(out) ==> out@.len() == split(t@, size as nat).len() && forall|i: int|
            0 <= i < out@.len() ==> maps_to(*f, split(t@, size as nat)[i], #[trigger] out@[i]),
{
    match rayon::ThreadPoolBuilder::new().num_threads(nthreads).build() {
        Ok(pool) => Some(pool.install(|| t.par_chunks(size).map(|c| f(c)).collect())),
        Err(_) => None,
    }
}

/// The results of `f` on the chunks in which `nthreads` workers take the
/// list, in the order of the chunks. A short list is worked on as a whole by
/// the caller. A long one is shared between `nthreads` workers; where these
/// cannot be had, the caller works on the chunks one after the other.
pub fn par_map_chunks<T: Sync, R: Send, F: Fn(&[T]) -> R + Sync>(
    t: &[T],
    nthreads: usize,
    f: F,
) -> (r: Vec<R>)
    requires
        nthreads >= 1,
        forall|c: &[T]| call_requires(f, (c,)),
    ensures
        mapped_chunks(f, t@, nthreads as nat, r@),
{
    let len = t.len();
    let mut out: Vec<R> = Vec::new();
    let small = match nthreads.checked_mul(100) {
        Some(limit) => len < limit,
        None => true,
    };
    if nthreads == 1 || small {
        let whole = f(t);
        out.push(whole);
        proof {
            assert(maps_to(f, chunks(t@, nthreads as nat)[0], out@[0]));
        }
        return out;
    }
    proof {
        lemma_chunk_size(len as nat, nthreads as nat);
    }
    let size = if len % nthreads == 0 {
        len / nthreads
    } else {
        len / nthreads + 1
    };
    match spawn_map_chunks(t, size, nthreads, &f) {
        Some(shared) => {
            return shared;
        },
        None => {},
    }
    let ghost all = split(t@, size as nat);
    let ghost mut done: Seq<Seq<T>> = Seq::empty();
    let mut start: usize = 0;
    proof {
        assert(t@.subrange(0, len as int) =~= t@);
        assert(done + split(t@.subrange(0, len as int), size as nat) =~= all);
    }
    while start < len
        invariant
            0 <= start <= len,
            len == t@.len(),
            size > 0,
            all == split(t@, size as nat),
            done + split(t@.subrange(start as int, len as int), size as nat) == all,
            out.len() == done.len(),
            forall|c: &[T]| call_requires(f, (c,)),
            forall|i: int| 0 <= i < out.len() ==> maps_to(f, done[i], #[trigger] out[i]),
        decreases len - start,
    {
        let end = if len - start <= size {
            len
        } else {
            start + size
        };
        let c = &t[start..end];
        let one = f(c);
        proof {
            let rest = t@.subrange(start as int, len as int);
            let next = t@.subrange(end as int, len as int);
            assert(c@ =~= rest.subrange(0, end - start));
            if end < len {
                assert(next =~= rest.subrange(size as int, rest.len() as int));
            } else {
                assert(c@ =~= rest);
                assert(split(next, size as nat) =~= Seq::<Seq<T>>::empty());
            }
            assert(done.push(c@) + split(next, size as nat) =~= done + split(rest, size as nat));
            assert(maps_to(f, c@, one));
            done = done.push(c@);
        }
        out.push(one);
        start = end;
    }
    proof {
        assert(split(t@.subrange(len as int, len as int), size as nat) =~= Seq::<Seq<T>>::empty());
        assert(done =~= all);
    }
    out
}

/// The results of `f` on the chunks in which `nthreads` workers take the
/// list, joined in the order of the chunks.
pub fn parallel<T: Sync, R: Copy + Send, F: Fn(&[T]) -> Vec<R> + Sync>(
    states: &[T],
    nthreads: usize,
    f: F,
) -> (r: Vec<R>)
    requires
        nthreads >= 1,
        forall|c: &[T]| call_requires(f, (c,)),
    ensures
        exists|parts: Seq<Vec<R>>|
            mapped_chunks(f, states@, nthreads as nat, parts) && r@ == views(parts).flatten(),
{
    let parts = par_map_chunks(states, nthreads, f);
    let r = par_join(&parts);
    proof {
        assert(mapped_chunks(f, states@, nthreads as nat, parts@) && r@ == views(
            parts@,
        ).flatten());
    }
    r
}

/// How often the board stands in the list.
pub open spec fn count_of(s: Seq<Board>, x: Board) -> nat {
    s.to_multiset().count(x)
}

/// A board put at the end of a list stands in it once more; the others stand
/// in it as often as before.
pub proof fn lemma_count_push(s: Seq<Board>, y: Board, x: Board)
    ensures
        count_of(s.push(y), x) == count_of(s, x) + if x == y {
            1nat
        } else {
            0nat
        },
{
    broadcast use vstd::multiset::group_multiset_axioms;

    vstd::seq_lib::to_multiset_build(s, y);
}

/// A board that does not stand behind the first `n` places of a list stands
/// among these as often as in the list.
pub proof fn lemma_count_prefix(s: Seq<Board>, n: int, x: Board)
    requires
        0 <= n <= s.len(),
        forall|k: int| n <= k < s.len() ==> s[k] != x,
    ensures
        count_of(s.subrange(0, n), x) == count_of(s, x),
    decreases s.len() - n,
{
    if n < s.len() {
        lemma_count_prefix(s, n + 1, x);
        assert(s.subrange(0, n + 1) =~= s.subrange(0, n).push(s[n]));
        lemma_count_push(s.subrange(0, n), s[n], x);
    } else {
        assert(s.subrange(0, n) =~= s);
    }
}

/// The boards that stand in both of two sorted lists, in their order: a
/// board that stands several times in both comes out as often as in the list
/// in which it stands less often.
pub fn intersect_sorted_vecs(a: &[Board], b: &[Board]) -> (r: Vec<Board>)
    requires
        sorted(a@),
        sorted(b@),
    ensures
        sorted(r@),
        forall|x: Board| r@.contains(x) <==> a@.contains(x) && b@.contains(x),
        forall|x: Board| #[trigger]
            count_of(r@, x) == vstd::math::min(count_of(a@, x) as int, count_of(b@, x) as int),
        r@.to_set() == a@.to_set().intersect(b@.to_set()),
        strictly_sorted(a@) || strictly_sorted(b@) ==> strictly_sorted(r@),
{
    let mut ia: usize = 0;
    let mut ib: usize = 0;
    let mut res: Vec<Board> = Vec::new();
    proof {
        assert(a@.subrange(0, 0) =~= Seq::<Board>::empty());
        assert(b@.subrange(0, 0) =~= Seq::<Board>::empty());
        assert(res@ =~= Seq::<Board>::empty());
    }
    while ia < a.len() && ib < b.len()
        invariant
            0 <= ia <= a.len(),
            0 <= ib <= b.len(),
            sorted(a@),
            sorted(b@),
            sorted(res@),
            forall|x: Board| res@.contains(x) ==> a@.contains(x) && b@.contains(x),
            forall|i: int, j: int|
                0 <= i < ia && 0 <= j < b.len() && a[i] == b[j] ==> res@.contains(#[trigger] a[i])
                    || !(#[trigger] b[j] == a[i]),
            forall|j: int, i: int|
                0 <= j < ib && 0 <= i < a.len() && a[i] == b[j] ==> res@.contains(#[trigger] b[j])
                    || !(#[trigger] a[i] == b[j]),
            forall|k: int| 0 <= k < res.len() && ia < a.len() ==> (#[trigger] res[k]).0 <= a[ia as int].0,
            forall|k: int| 0 <= k < res.len() && ib < b.len() ==> (#[trigger] res[k]).0 <= b[ib as int].0,
            strictly_sorted(a@) ==> strictly_sorted(res@) && forall|k: int|
                0 <= k < res.len() && ia < a.len() ==> (#[trigger] res[k]).0 < a[ia as int].0,
            strictly_sorted(b@) ==> strictly_sorted(res@) && forall|k: int|
                0 <= k < res.len() && ib < b.len() ==> (#[trigger] res[k]).0 < b[ib as int].0,
            forall|z: Board| #[trigger]
                count_of(res@, z) == vstd::math::min(
                    count_of(a@.subrange(0, ia as int), z) as int,
                    count_of(b@.subrange(0, ib as int), z) as int,
                ),
            forall|z: Board|
                ib < b.len() && #[trigger] count_of(a@.subrange(0, ia as int), z) > count_of(
                    b@.subrange(0, ib as int),
                    z,
                ) ==> z.0 < b[ib as int].0,
            forall|z: Board|
                ia < a.len() && #[trigger] count_of(b@.subrange(0, ib as int), z) > count_of(
                    a@.subrange(0, ia as int),
                    z,
                ) ==> z.0 < a[ia as int].0,
        decreases a.len() - ia + b.len() - ib,
    {
        let x = a[ia];
        let y = b[ib];
        let ghost first = a@.subrange(0, ia as int);
        let ghost second = b@.subrange(0, ib as int);
        let ghost before = res@;
        proof {
            assert(a@.subrange(0, ia + 1) =~= first.push(x));
            assert(b@.subrange(0, ib + 1) =~= second.push(y));
        }
        if x.0 == y.0 {
            res.push(x);
            proof {
                assert(res@[before.len() as int] == x);
                assert forall|z: Board| res@.contains(z) implies a@.contains(z) && b@.contains(
                    z,
                ) by {
                    let k = choose|k: int| 0 <= k < res@.len() && res@[k] == z;
                    if k < before.len() {
                        assert(before[k] == z);
                        assert(before.contains(z));
                    } else {
                        assert(a@[ia as int] == z);
                        assert(b@[ib as int] == z);
                    }
                }
                assert forall|z: Board| before.contains(z) implies res@.contains(z) by {
                    let k = choose|k: int| 0 <= k < before.len() && before[k] == z;
                    assert(res@[k] == z);
                }
                assert forall|z: Board|
                    count_of(res@, z) == vstd::math::min(
                        count_of(first.push(x), z) as int,
                        count_of(second.push(y), z) as int,
                    ) by {
                    lemma_count_push(first, x, z);
                    lemma_count_push(second, y, z);
                    lemma_count_push(before, x, z);
                    assert(count_of(before, z) == vstd::math::min(
                        count_of(first, z) as int,
                        count_of(second, z) as int,
                    ));
                }
            }
            ia = ia + 1;
            ib = ib + 1;
        } else if x.0 < y.0 {
            proof {
                assert forall|j: int| 0 <= j < b.len() && a[ia as int] == b[j] implies res@.contains(
                    a[ia as int],
                ) by {
                    if j >= ib {
                        assert(b[ib as int].0 <= b[j].0);
                    }
                }
                assert forall|z: Board|
                    count_of(res@, z) == vstd::math::min(
                        count_of(first.push(x), z) as int,
                        count_of(second, z) as int,
                    ) by {
                    lemma_count_push(first, x, z);
                    assert(count_of(before, z) == vstd::math::min(
                        count_of(first, z) as int,
                        count_of(second, z) as int,
                    ));
                }
            }
            ia = ia + 1;
        } else {
            proof {
                assert forall|i: int| 0 <= i < a.len() && a[i] == b[ib as int] implies res@.contains(
                    b[ib as int],
                ) by {
                    if i >= ia {
                        assert(a[ia as int].0 <= a[i].0);
                    }
                }
                assert forall|z: Board|
                    count_of(res@, z) == vstd::math::min(
                        count_of(first, z) as int,
                        count_of(second.push(y), z) as int,
                    ) by {
                    lemma_count_push(second, y, z);
                    assert(count_of(before, z) == vstd::math::min(
                        count_of(first, z) as int,
                        count_of(second, z) as int,
                    ));
                }
            }
            ib = ib + 1;
        }
        proof {
            let now_first = a@.subrange(0, ia as int);
            let now_second = b@.subrange(0, ib as int);
            assert forall|z: Board|
                ib < b.len() && #[trigger] count_of(now_first, z) > count_of(
                    now_second,
                    z,
                ) implies z.0 < b[ib as int].0 by {
                lemma_count_push(first, x, z);
                lemma_count_push(second, y, z);
                if x.0 > y.0 || x.0 == y.0 {
                    assert(count_of(first, z) > count_of(second, z));
                    assert(z.0 < y.0);
                    assert(b[ib - 1].0 <= b[ib as int].0);
                } else if count_of(first, z) > count_of(second, z) {
                    assert(z.0 < y.0);
                }
            }
            assert forall|z: Board|
                ia < a.len() && #[trigger] count_of(now_second, z) > count_of(
                    now_first,
                    z,
                ) implies z.0 < a[ia as int].0 by {
                lemma_count_push(first, x, z);
                lemma_count_push(second, y, z);
                if x.0 < y.0 || x.0 == y.0 {
                    assert(count_of(second, z) > count_of(first, z));
                    assert(z.0 < x.0);
                    assert(a[ia - 1].0 <= a[ia as int].0);
                } else if count_of(second, z) > count_of(first, z) {
                    assert(z.0 < x.0);
                }
            }
        }
    }
    proof {
        assert forall|x: Board| a@.contains(x) && b@.contains(x) implies res@.contains(x) by {
            let i = choose|i: int| 0 <= i < a@.len() && a@[i] == x;
            let j = choose|j: int| 0 <= j < b@.len() && b@[j] == x;
            assert(a[i] == b[j]);
        }
        assert(res@.to_set() =~= a@.to_set().intersect(b@.to_set()));
        let first = a@.subrange(0, ia as int);
        let second = b@.subrange(0, ib as int);
        assert forall|z: Board| #[trigger]
            count_of(res@, z) == vstd::math::min(
                count_of(a@, z) as int,
                count_of(b@, z) as int,
            ) by {
            assert(count_of(res@, z) == vstd::math::min(
                count_of(first, z) as int,
                count_of(second, z) as int,
            ));
            if ia == a.len() {
                assert(first =~= a@);
            }
            if ib == b.len() {
                assert(second =~= b@);
            }
            if ia < a.len() {
                // the second list is used up
                if count_of(second, z) > count_of(first, z) {
                    assert(z.0 < a[ia as int].0);
                    assert forall|k: int| ia <= k < a@.len() implies a@[k] != z by {
                        assert(a[ia as int].0 <= a[k].0);
                    }
                    lemma_count_prefix(a@, ia as int, z);
                } else {
                    lemma_count_grows(a@, ia as int, z);
                }
            }
            if ib < b.len() {
                // the first list is used up
                if count_of(first, z) > count_of(second, z) {
                    assert(z.0 < b[ib as int].0);
                    assert forall|k: int| ib <= k < b@.len() implies b@[k] != z by {
                        assert(b[ib as int].0 <= b[k].0);
                    }
                    lemma_count_prefix(b@, ib as int, z);
                } else {
                    lemma_count_grows(b@, ib as int, z);
                }
            }
        }
    }
    res
}

/// A board stands in a list at least as often as among its first `n` places.
pub proof fn lemma_count_grows(s: Seq<Board>, n: int, x: Board)
    requires
        0 <= n <= s.len(),
    ensures
        count_of(s.subrange(0, n), x) <= count_of(s, x),
    decreases s.len() - n,
{
    if n < s.len() {
        lemma_count_grows(s, n + 1, x);
        assert(s.subrange(0, n + 1) =~= s.subrange(0, n).push(s[n]));
        lemma_count_push(s.subrange(0, n), s[n], x);
    } else {
        assert(s.subrange(0, n) =~= s);
    }
}

/// The vector without the boards that repeat the one before them, worked out
/// chunk by chunk as `nthreads` workers would: each chunk is freed of
/// repetitions by itself, then the last board of a chunk goes where the next
/// chunk begins with the same, and the chunks are joined.
pub fn par_dedup(v: &Vec<Board>, nthreads: usize) -> (r: Vec<Board>)
    requires
        nthreads >= 1,
    ensures
        r@ == dedup(v@),
        sorted(v@) ==> strictly_sorted(r@) && r@.to_set() == v@.to_set(),
{
    let mut parts = par_map_chunks(v.as_slice(), nthreads, dedup_boards);
    let ghost cs = chunks(v@, nthreads as nat);
    proof {
        lemma_chunks_flatten(v@, nthreads as nat);
        assert forall|i: int| 0 <= i < parts.len() implies (#[trigger] parts[i])@ == dedup(
            cs[i],
        ) by {
            assert(maps_to(dedup_boards, cs[i], parts[i]));
        }
    }
    if v.len() == 0 {
        let r = par_join(&parts);
        proof {
            assert forall|i: int| 0 <= i < parts.len() implies (#[trigger] views(parts@)[i]).len()
                == 0 by {
                lemma_dedup_ends(cs[i]);
                cs.lemma_flatten_length_ge_single_element_length(i);
            }
            lemma_flatten_empty(views(parts@));
            assert(r@ =~= dedup(v@));
        }
        return r;
    }
    let n = parts.len();
    let ghost cleaned = views(parts@);
    let mut i: usize = 0;
    while i + 1 < n
        invariant
            0 <= i < n,
            n == parts.len(),
            n == cs.len(),
            cleaned.len() == n,
            forall|k: int| 0 <= k < n ==> (#[trigger] cs[k]).len() > 0,
            forall|k: int| 0 <= k < n ==> #[trigger] cleaned[k] == dedup(cs[k]),
            forall|k: int| i <= k < n ==> (#[trigger] parts[k])@ == cleaned[k],
            forall|k: int|
                0 <= k < i ==> (#[trigger] parts[k])@ == (if cs[k].last() == cs[k + 1].first() {
                    cleaned[k].drop_last()
                } else {
                    cleaned[k]
                }),
        decreases n - i,
    {
        proof {
            lemma_dedup_ends(cs[i as int]);
            lemma_dedup_ends(cs[i + 1]);
        }
        let last = parts[i][parts[i].len() - 1];
        let first = parts[i + 1][0];
        if last.0 == first.0 {
            let mut part = Vec::new();
            std::mem::swap(&mut part, &mut parts[i]);
            part.pop();
            parts[i] = part;
        }
        i = i + 1;
    }
    let r = par_join(&parts);
    proof {
        lemma_dedup_chunks(cs, views(parts@), 0);
        assert(cs.subrange(0, n as int) =~= cs);
        assert(views(parts@).subrange(0, n as int) =~= views(parts@));
        if sorted(v@) {
            lemma_dedup_sorted(v@);
        }
    }
    r
}

/// A list of empty lists, joined, is empty.
pub proof fn lemma_flatten_empty<T>(s: Seq<Seq<T>>)
    requires
        forall|i: int| 0 <= i < s.len() ==> (#[trigger] s[i]).len() == 0,
    ensures
        s.flatten().len() == 0,
    decreases s.len(),
{
    if s.len() > 0 {
        lemma_flatten_empty(s.drop_first());
    }
}

/// Chunks freed of repetitions one by one, with the last element of a chunk
/// dropped where the next begins with it, are when joined the whole list
/// freed of repetitions. Stated of the chunks from the `from`-th on.
pub proof fn lemma_dedup_chunks<T>(cs: Seq<Seq<T>>, fixed: Seq<Seq<T>>, from: int)
    requires
        0 <= from < cs.len(),
        fixed.len() == cs.len(),
        forall|k: int| 0 <= k < cs.len() ==> (#[trigger] cs[k]).len() > 0,
        forall|k: int|
            from <= k < cs.len() - 1 ==> #[trigger] fixed[k] == (if cs[k].last() == cs[k
                + 1].first() {
                dedup(cs[k]).drop_last()
            } else {
                dedup(cs[k])
            }),
        fixed[cs.len() - 1] == dedup(cs[cs.len() - 1]),
    ensures
        fixed.subrange(from, cs.len() as int).flatten() == dedup(
            cs.subrange(from, cs.len() as int).flatten(),
        ),
        cs.subrange(from, cs.len() as int).flatten().len() > 0,
        cs.subrange(from, cs.len() as int).flatten().first() == cs[from].first(),
    decreases cs.len() - from,
{
    let n = cs.len() as int;
    let ctail = cs.subrange(from, n);
    let ftail = fixed.subrange(from, n);
    if from == n - 1 {
        ctail.lemma_flatten_one_element();
        ftail.lemma_flatten_one_element();
        assert(ctail.flatten() =~= cs[from]);
        assert(ftail.flatten() =~= fixed[from]);
    } else {
        lemma_dedup_chunks(cs, fixed, from + 1);
        let crest = cs.subrange(from + 1, n);
        let frest = fixed.subrange(from + 1, n);
        assert(ctail =~= seq![cs[from]] + crest);
        assert(ftail =~= seq![fixed[from]] + frest);
        vstd::seq_lib::lemma_flatten_concat(seq![cs[from]], crest);
        vstd::seq_lib::lemma_flatten_concat(seq![fixed[from]], frest);
        seq![cs[from]].lemma_flatten_one_element();
        seq![fixed[from]].lemma_flatten_one_element();
        assert(ctail.flatten() =~= cs[from] + crest.flatten());
        assert(ftail.flatten() =~= fixed[from] + frest.flatten());
        lemma_dedup_concat(cs[from], crest.flatten());
    }
}

} // verus!
