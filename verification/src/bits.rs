//! Bit-level model of 64-bit words: which bits are set, and what the word
//! operations that the board relies on do to them.

use vstd::prelude::*;
use vstd::std_specs::bits::{axiom_u64_trailing_zeros, u64_trailing_zeros};

verus! {

/// Bit `i` of `a` is set. False for every `i` outside `0..64`.
pub open spec fn bit(a: u64, i: int) -> bool {
    0 <= i < 64 && (a >> (i as u64)) & 1 == 1
}

/// The positions of the set bits of `a`.
pub open spec fn ones(a: u64) -> Set<int> {
    Set::new(|i: int| bit(a, i))
}

/// The word with the byte order reversed, written with shifts and masks.
pub open spec fn byte_swap(a: u64) -> u64 {
    ((a & 0xff) << 56) | ((a & 0xff00) << 40) | ((a & 0xff_0000) << 24) | ((a & 0xff00_0000) << 8)
        | ((a >> 8) & 0xff00_0000) | ((a >> 24) & 0xff_0000) | ((a >> 40) & 0xff00) | ((a >> 56)
        & 0xff)
}

/// The word with the bit order reversed: neighbours, pairs and nibbles are
/// exchanged inside each byte, then the bytes are reversed.
pub open spec fn bit_reverse(a: u64) -> u64 {
    let s1 = ((a >> 1) & 0x5555_5555_5555_5555) | ((a & 0x5555_5555_5555_5555) << 1);
    let s2 = ((s1 >> 2) & 0x3333_3333_3333_3333) | ((s1 & 0x3333_3333_3333_3333) << 2);
    let s3 = ((s2 >> 4) & 0x0f0f_0f0f_0f0f_0f0f) | ((s2 & 0x0f0f_0f0f_0f0f_0f0f) << 4);
    byte_swap(s3)
}

/// How `&`, `|`, `^` and `!` act on a single bit.
pub proof fn lemma_bit_ops(a: u64, b: u64, i: u64)
    by (bit_vector)
    requires
        i < 64,
    ensures
        bit(a & b, i as int) == (bit(a, i as int) && bit(b, i as int)),
        bit(a | b, i as int) == (bit(a, i as int) || bit(b, i as int)),
        bit(a ^ b, i as int) == (bit(a, i as int) != bit(b, i as int)),
        bit(!a, i as int) == !bit(a, i as int),
        !bit(0, i as int),
{
}

/// `1 << k` has bit `k` set and no other.
pub proof fn lemma_bit_single(k: u64, i: u64)
    by (bit_vector)
    requires
        k < 64,
        i < 64,
    ensures
        bit(1u64 << k, i as int) == (i == k),
{
}

/// A shift by `n` moves every bit by `n` positions and fills with zeros.
pub proof fn lemma_bit_shift(a: u64, n: u64, i: u64)
    by (bit_vector)
    requires
        n < 64,
        i < 64,
    ensures
        bit(a >> n, i as int) == (i + n < 64 && bit(a, (i + n) as int)),
        bit(a << n, i as int) == (i >= n && bit(a, (i - n) as int)),
{
}

/// Two different words differ in the bit at the lowest set position of their
/// exclusive or.
proof fn lemma_xor_witness(a: u64, b: u64, t: u64)
    by (bit_vector)
    requires
        t < 64,
        ((a ^ b) >> t) & 1 == 1,
    ensures
        bit(a, t as int) != bit(b, t as int),
{
}

proof fn lemma_xor_zero(a: u64, b: u64)
    by (bit_vector)
    requires
        a ^ b == 0,
    ensures
        a == b,
{
}

/// Words are equal when they agree bit for bit.
pub proof fn lemma_bits_equal(a: u64, b: u64)
    requires
        forall|i: int| 0 <= i < 64 ==> bit(a, i) == bit(b, i),
    ensures
        a == b,
{
    let x = a ^ b;
    if x != 0 {
        axiom_u64_trailing_zeros(x);
        let t = u64_trailing_zeros(x) as u64;
        lemma_xor_witness(a, b, t);
        assert(bit(a, t as int) == bit(b, t as int));
    } else {
        lemma_xor_zero(a, b);
    }
}

/// Bit `i` of the byte-swapped word.
pub proof fn lemma_byte_swap_bit(a: u64, i: u64)
    by (bit_vector)
    requires
        i < 64,
    ensures
        bit(byte_swap(a), i as int) == bit(a, (56 - 8 * (i / 8) + i % 8) as int),
{
}

/// Bit `i` of the bit-reversed word.
pub proof fn lemma_bit_reverse_bit(a: u64, i: u64)
    by (bit_vector)
    requires
        i < 64,
    ensures
        bit(bit_reverse(a), i as int) == bit(a, (63 - i) as int),
{
}

/// The byte order reversed: byte `k` of the result is byte `7 - k` of the
/// word, bit for bit.
pub fn swap_byte_order(a: u64) -> (r: u64)
    ensures
        r == byte_swap(a),
        forall|i: int| 0 <= i < 64 ==> #[trigger] bit(r, i) == bit(a, 56 - 8 * (i / 8) + i % 8),
{
    let r = ((a & 0xff) << 56) | ((a & 0xff00) << 40) | ((a & 0xff_0000) << 24) | ((a
        & 0xff00_0000) << 8) | ((a >> 8) & 0xff00_0000) | ((a >> 24) & 0xff_0000) | ((a >> 40)
        & 0xff00) | ((a >> 56) & 0xff);
    proof {
        assert forall|i: int| 0 <= i < 64 implies #[trigger] bit(r, i) == bit(
            a,
            56 - 8 * (i / 8) + i % 8,
        ) by {
            lemma_byte_swap_bit(a, i as u64);
        }
    }
    r
}

/// The bit order reversed: bit `i` of the result is bit `63 - i` of the word.
pub fn reverse_bit_order(a: u64) -> (r: u64)
    ensures
        r == bit_reverse(a),
        forall|i: int| 0 <= i < 64 ==> #[trigger] bit(r, i) == bit(a, 63 - i),
{
    let s1 = ((a >> 1) & 0x5555_5555_5555_5555) | ((a & 0x5555_5555_5555_5555) << 1);
    let s2 = ((s1 >> 2) & 0x3333_3333_3333_3333) | ((s1 & 0x3333_3333_3333_3333) << 2);
    let s3 = ((s2 >> 4) & 0x0f0f_0f0f_0f0f_0f0f) | ((s2 & 0x0f0f_0f0f_0f0f_0f0f) << 4);
    let r = swap_byte_order(s3);
    proof {
        assert forall|i: int| 0 <= i < 64 implies #[trigger] bit(r, i) == bit(a, 63 - i) by {
            lemma_bit_reverse_bit(a, i as u64);
        }
    }
    r
}

/// The set bits of a word are finitely many, at most 64.
pub proof fn lemma_ones_finite(a: u64)
    ensures
        ones(a).finite(),
        ones(a).len() <= 64,
{
    let all = Set::new(|i: int| 0 <= i < 64);
    vstd::set_lib::lemma_int_range(0, 64);
    assert(all =~= vstd::set_lib::set_int_range(0, 64));
    assert(ones(a).subset_of(all));
    vstd::set_lib::lemma_len_subset(ones(a), all);
}

/// The lowest set bit of a nonzero word: where it is, and that no bit below
/// it is set.
pub proof fn lemma_lowest_bit(a: u64)
    requires
        a != 0,
    ensures
        u64_trailing_zeros(a) < 64,
        bit(a, u64_trailing_zeros(a) as int),
        forall|j: int| 0 <= j < u64_trailing_zeros(a) ==> !bit(a, j),
{
    axiom_u64_trailing_zeros(a);
    let t = u64_trailing_zeros(a);
    assert forall|j: int| 0 <= j < t implies !bit(a, j) by {
        let ju = j as u64;
        assert((a >> ju) & 1u64 == 0u64);
    }
}

/// Taking one off a word and meeting the result with the word clears the
/// lowest set bit, at `t`, and leaves the other bits.
proof fn lemma_clear_lowest_bit(x: u64, t: u64, i: u64)
    by (bit_vector)
    requires
        t < 64,
        i < 64,
        (x >> t) & 1 == 1,
        x << ((64 - t) as u64) == 0,
    ensures
        x != 0,
        bit(x & ((x - 1) as u64), i as int) == (bit(x, i as int) && i != t),
{
}

/// The number of bits that are set in the word.
pub fn count_set_bits(a: u64) -> (r: u32)
    ensures
        r == ones(a).len(),
{
    let mut x = a;
    let mut n: u32 = 0;
    proof {
        lemma_ones_finite(a);
    }
    while x != 0
        invariant
            ones(x).finite(),
            n + ones(x).len() == ones(a).len(),
            ones(a).len() <= 64,
        decreases ones(x).len(),
    {
        proof {
            axiom_u64_trailing_zeros(x);
            let t = u64_trailing_zeros(x) as u64;
            let y = x & ((x - 1) as u64);
            assert forall|i: int| bit(y, i) == (bit(x, i) && i != t) by {
                if 0 <= i < 64 {
                    lemma_clear_lowest_bit(x, t, i as u64);
                }
            }
            lemma_clear_lowest_bit(x, t, t);
            assert(ones(y) =~= ones(x).remove(t as int));
            assert(ones(x).contains(t as int));
        }
        x = x & (x - 1);
        n = n + 1;
    }
    proof {
        assert forall|i: int| !bit(0, i) by {
            if 0 <= i < 64 {
                lemma_bit_ops(0, 0, i as u64);
            }
        }
        assert(ones(0) =~= Set::<int>::empty());
    }
    n
}

} // verus!
