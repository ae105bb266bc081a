//! A hash set of boards. The hash of a board is its word with the halves
//! mixed, taken as it is.

use crate::board::Board;
use nohash_hasher::{BuildNoHashHasher, NoHashHasher};
use std::collections::HashSet;
use std::hash::BuildHasherDefault;
use vstd::prelude::*;

verus! {

/// `NoHashHasher` of nohash_hasher: the hasher that hands an integer key on
/// as its own hash.
#[verifier::external_type_specification]
#[verifier::external_body]
#[verifier::reject_recursive_types(T)]
pub struct ExNoHashHasher<T>(NoHashHasher<T>);

/// `BuildHasherDefault` of std: the builder that makes a hasher by `Default`.
#[verifier::external_type_specification]
#[verifier::external_body]
#[verifier::reject_recursive_types(H)]
pub struct ExBuildHasherDefault<H>(BuildHasherDefault<H>);

/// `HashSet::default` of std, for a set of `u64` with the hasher of
/// nohash_hasher. Believed, not proved: the new set is empty.
#[verifier::external_body]
fn int_set_new() -> (s: HashSet<u64, BuildNoHashHasher<u64>>)
    ensures
        s@ == Set::<u64>::empty(),
{
    HashSet::default()
}

/// `HashSet::insert` of std, on a set of `u64` with the hasher of
/// nohash_hasher. Believed, not proved: the key is in the set afterwards,
/// nothing else changes, and the result says whether the key is new.
#[verifier::external_body]
fn int_set_insert(s: &mut HashSet<u64, BuildNoHashHasher<u64>>, key: u64) -> (fresh: bool)
    ensures
        final(s)@ == old(s)@.insert(key),
        fresh == !old(s)@.contains(key),
{
    s.insert(key)
}

/// `HashSet::contains` of std, on a set of `u64` with the hasher of
/// nohash_hasher. Believed, not proved: the result says whether the key is in
/// the set.
#[verifier::external_body]
fn int_set_contains(s: &HashSet<u64, BuildNoHashHasher<u64>>, key: u64) -> (r: bool)
    ensures
        r == s@.contains(key),
{
    s.contains(&key)
}

/// `HashSet::len` of std, on a set of `u64` with the hasher of nohash_hasher.
/// Believed, not proved: the result is the number of the keys of the set.
#[verifier::external_body]
fn int_set_len(s: &HashSet<u64, BuildNoHashHasher<u64>>) -> (r: usize)
    ensures
        s@.finite() ==> r == s@.len(),
{
    s.len()
}

/// The word with its low half mixed into the high half and the high half into
/// the low: the hash of a board. Boards leave many bits of their word unused,
/// and always the same; of the mixed word the low bits and the high bits both
/// vary from board to board.
pub open spec fn spec_scramble(x: u64) -> u64 {
    let y = x ^ (x >> 32);
    y ^ (y << 32)
}

proof fn lemma_scramble_injective(a: u64, b: u64)
    by (bit_vector)
    requires
        spec_scramble(a) == spec_scramble(b),
    ensures
        a == b,
{
}

/// The hash of a word.
pub fn scramble(x: u64) -> (r: u64)
    ensures
        r == spec_scramble(x),
{
    let y = x ^ (x >> 32);
    y ^ (y << 32)
}

/// A set of boards. Its view is the set of the boards it holds.
pub struct BoardSet {
    hashes: HashSet<u64, BuildNoHashHasher<u64>>,
}

impl View for BoardSet {
    type V = Set<Board>;

    closed spec fn view(&self) -> Set<Board> {
        Set::new(|b: Board| self.hashes@.contains(spec_scramble(b.0)))
    }
}

impl BoardSet {
    /// The empty set.
    pub fn new() -> (r: BoardSet)
        ensures
            r@ == Set::<Board>::empty(),
    {
        let r = BoardSet { hashes: int_set_new() };
        assert(r@ =~= Set::<Board>::empty());
        r
    }

    /// Puts a board into the set, and says whether it was new.
    pub fn insert(&mut self, board: Board) -> (fresh: bool)
        ensures
            final(self)@ == old(self)@.insert(board),
            fresh == !old(self)@.contains(board),
    {
        let fresh = int_set_insert(&mut self.hashes, scramble(board.0));
        proof {
            assert forall|b: Board| self@.contains(b) == old(self)@.insert(board).contains(b) by {
                if spec_scramble(b.0) == spec_scramble(board.0) {
                    lemma_scramble_injective(b.0, board.0);
                }
            }
            assert(self@ =~= old(self)@.insert(board));
        }
        fresh
    }

    /// The number of boards in the set.
    pub fn len(&self) -> (r: usize)
        ensures
            self@.finite() ==> r == self@.len(),
    {
        let r = int_set_len(&self.hashes);
        proof {
            if self@.finite() {
                let g = |b: Board| spec_scramble(b.0);
                let image = self@.map(g);
                assert(vstd::relations::injective_on(g, self@)) by {
                    assert forall|a: Board, b: Board|
                        self@.contains(a) && self@.contains(b) && g(a) == g(b) implies a == b by {
                        lemma_scramble_injective(a.0, b.0);
                    }
                }
                vstd::set_lib::lemma_map_size(self@, image, g);
                // every hash in the set is the hash of a board: of the board
                // whose word is the hash mixed once more
                assert forall|k: u64| self.hashes@.contains(k) implies image.contains(k) by {
                    lemma_scramble_onto(k);
                    let b = Board(spec_unscramble(k));
                    assert(self@.contains(b) && g(b) == k);
                }
                assert(image =~= self.hashes@);
            }
        }
        r
    }

    /// Whether the set holds the board.
    pub fn contains(&self, board: &Board) -> (r: bool)
        ensures
            r == self@.contains(*board),
    {
        int_set_contains(&self.hashes, scramble(board.0))
    }
}

/// The word of which `k` is the hash.
pub open spec fn spec_unscramble(k: u64) -> u64 {
    let y = k ^ (k << 32);
    y ^ (y >> 32)
}

proof fn lemma_scramble_onto(k: u64)
    by (bit_vector)
    ensures
        spec_scramble(spec_unscramble(k)) == k,
{
}

} // verus!
