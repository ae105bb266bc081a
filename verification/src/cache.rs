//! The solvable boards as a stream of bytes, and back.
//!
//! The stream holds words of 32 bits, the low byte first: the number of the
//! boards whose compressed form has bit 32 set, then the low 32 bits of the
//! compressed form of each of these, then the compressed forms of the other
//! boards. On disk the stream is compressed with Brotli.

use crate::board::Board;
use crate::hash::BoardSet;
use std::io::{Read, Write};
use vstd::bytes::{
    lemma_auto_spec_u32_to_from_le_bytes, spec_u32_from_le_bytes, spec_u32_to_le_bytes,
    u32_from_le_bytes, u32_to_le_bytes,
};
use vstd::prelude::*;

verus! {

/// Bit 32, which the stream leaves out of the compressed forms of its first
/// part.
pub const HIGH_BIT: u64 = 0x1_0000_0000;

/// Why a stream, or a list of boards, cannot be taken.
#[derive(Debug, Clone, Copy, PartialEq, Eq, Structural)]
pub enum CacheError {
    /// The compressed data is no Brotli stream.
    Corrupt,
    /// The stream ends before the number of boards of its first part, or
    /// before the last of them.
    Truncated,
    /// The boards of the first part are too many for a count of 32 bits.
    TooManyBoards,
}

/// What Brotli decompression gives for the bytes, if they are a Brotli
/// stream.
pub uninterp spec fn brotli_decoded(data: Seq<u8>) -> Option<Seq<u8>>;

/// `CompressorWriter` of brotli, fed with the bytes at once, with a buffer of
/// 4096 bytes, quality 11 and a window of 22 bits, and closed. Believed, not
/// proved: the result is a Brotli stream that decompression turns back into
/// the bytes. Which stream it is, is left open: the encoder weighs its
/// choices with floating-point numbers, so machines may differ in it.
#[verifier::external_body]
fn brotli_compress(data: &[u8]) -> (r: Vec<u8>)
    ensures
        brotli_decoded(r@) == Some(data@),
{
    let mut writer = brotli::CompressorWriter::new(Vec::new(), 4096, 11, 22);
    let _ = writer.write_all(data);
    writer.into_inner()
}

/// `Decompressor` of brotli, read to its end with a buffer of 4096 bytes.
/// Believed, not proved: whether the bytes are taken, and what they give,
/// depends on the bytes alone.
#[verifier::external_body]
fn brotli_decompress(data: &[u8]) -> (r: Option<Vec<u8>>)
    ensures
        match r {
            Some(bytes) => brotli_decoded(data@) == Some(bytes@),
            None => brotli_decoded(data@) is None,
        },
{
    let mut bytes = Vec::new();
    match brotli::Decompressor::new(data, 4096).read_to_end(&mut bytes) {
        Ok(_) => Some(bytes),
        Err(_) => None,
    }
}

/// The bytes of a list of words, the low byte of each first.
pub open spec fn words_bytes(words: Seq<u32>) -> Seq<u8>
    decreases words.len(),
{
    if words.len() == 0 {
        Seq::empty()
    } else {
        words_bytes(words.drop_last()) + spec_u32_to_le_bytes(words.last())
    }
}

/// The `i`-th word of a stream.
pub open spec fn word_at(bytes: Seq<u8>, i: int) -> u32 {
    spec_u32_from_le_bytes(bytes.subrange(4 * i, 4 * i + 4))
}

/// Whether the compressed form of the board has bit 32 set.
pub open spec fn is_high(b: Board) -> bool {
    b.spec_compressed() >= HIGH_BIT
}

/// The low 32 bits of the compressed form of the board.
pub open spec fn low_word(b: Board) -> u32 {
    (b.spec_compressed() & 0xffff_ffff) as u32
}

/// The boards of a list in the order of the stream: first those whose
/// compressed form has bit 32 set, then the others.
pub open spec fn stream_order(boards: Seq<Board>) -> Seq<Board> {
    boards.filter(|b: Board| is_high(b)) + boards.filter(|b: Board| !is_high(b))
}

/// The stream of a list of boards.
pub open spec fn stream_of(boards: Seq<Board>) -> Seq<u8> {
    let high = boards.filter(|b: Board| is_high(b));
    spec_u32_to_le_bytes(high.len() as u32) + words_bytes(
        stream_order(boards).map_values(|b: Board| low_word(b)),
    )
}

/// The board of the `i`-th word after the count, in a stream whose first
/// `high` words after the count stand for compressed forms with bit 32 set.
pub open spec fn board_at(bytes: Seq<u8>, high: int, i: int) -> Board {
    let word = word_at(bytes, i + 1) as u64;
    if i < high {
        Board::spec_from_compressed(word | HIGH_BIT)
    } else {
        Board::spec_from_compressed(word)
    }
}

/// The boards of a stream: nothing where the stream has no count or fewer
/// words than the count says. Bytes after the last whole word are ignored.
pub open spec fn decoded(bytes: Seq<u8>) -> Option<Seq<Board>> {
    if bytes.len() < 4 {
        None
    } else {
        let high = word_at(bytes, 0) as int;
        let words = bytes.len() / 4 - 1;
        if high > words {
            None
        } else {
            Some(Seq::new(words as nat, |i: int| board_at(bytes, high, i)))
        }
    }
}

proof fn lemma_low_word(key: u64)
    by (bit_vector)
    ensures
        key & 0xffff_ffff <= 0xffff_ffff,
        key < 0x2_0000_0000 && key >= HIGH_BIT ==> (((key & 0xffff_ffff) as u32) as u64) | HIGH_BIT
            == key,
        key < HIGH_BIT ==> ((key & 0xffff_ffff) as u32) as u64 == key,
{
}

/// The bytes of a list of words: four for each word, from which the word can
/// be read again.
pub proof fn lemma_words_bytes(words: Seq<u32>)
    ensures
        words_bytes(words).len() == 4 * words.len(),
        forall|i: int| 0 <= i < words.len() ==> word_at(words_bytes(words), i) == #[trigger] words[i],
    decreases words.len(),
{
    lemma_auto_spec_u32_to_from_le_bytes();
    if words.len() > 0 {
        let init = words.drop_last();
        lemma_words_bytes(init);
        let all = words_bytes(words);
        let n = words.len() as int;
        assert forall|i: int| 0 <= i < words.len() implies word_at(all, i) == #[trigger] words[i] by {
            if i < n - 1 {
                assert(all.subrange(4 * i, 4 * i + 4) =~= words_bytes(init).subrange(
                    4 * i,
                    4 * i + 4,
                ));
                assert(init[i] == words[i]);
            } else {
                assert(all.subrange(4 * i, 4 * i + 4) =~= spec_u32_to_le_bytes(words.last()));
            }
        }
    }
}

/// The stream of a list of boards, or an error where the boards whose
/// compressed form has bit 32 set are too many to be counted in 32 bits.
pub fn encode_solutions(solutions: &[Board]) -> (r: Result<Vec<u8>, CacheError>)
    ensures
        match r {
            Ok(bytes) => bytes@ == stream_of(solutions@) && solutions@.filter(
                |b: Board| is_high(b),
            ).len() <= u32::MAX,
            Err(e) => e == CacheError::TooManyBoards && solutions@.filter(
                |b: Board| is_high(b),
            ).len() > u32::MAX,
        },
{
    let ghost high_of = |b: Board| is_high(b);
    let ghost low_of = |b: Board| !is_high(b);
    let ghost word_of = |b: Board| low_word(b);
    let mut high: Vec<u32> = Vec::new();
    let mut low: Vec<u32> = Vec::new();
    let mut i: usize = 0;
    while i < solutions.len()
        invariant
            0 <= i <= solutions.len(),
            high_of == |b: Board| is_high(b),
            low_of == |b: Board| !is_high(b),
            word_of == |b: Board| low_word(b),
            high@ == solutions@.subrange(0, i as int).filter(high_of).map_values(word_of),
            low@ == solutions@.subrange(0, i as int).filter(low_of).map_values(word_of),
        decreases solutions.len() - i,
    {
        let key = solutions[i].to_compressed_repr();
        proof {
            lemma_low_word(key);
            let prefix = solutions@.subrange(0, i as int);
            assert(solutions@.subrange(0, i + 1) =~= prefix.push(solutions@[i as int]));
            prefix.lemma_filter_push(solutions@[i as int], high_of);
            prefix.lemma_filter_push(solutions@[i as int], low_of);
        }
        let word = (key & 0xffff_ffff) as u32;
        if key >= HIGH_BIT {
            high.push(word);
        } else {
            low.push(word);
        }
        i = i + 1;
        proof {
            let prefix = solutions@.subrange(0, i as int);
            assert(high@ =~= prefix.filter(high_of).map_values(word_of));
            assert(low@ =~= prefix.filter(low_of).map_values(word_of));
        }
    }
    proof {
        assert(solutions@.subrange(0, solutions.len() as int) =~= solutions@);
    }
    if high.len() > u32::MAX as usize {
        return Err(CacheError::TooManyBoards);
    }
    let mut bytes = u32_to_le_bytes(high.len() as u32);
    append_words(&mut bytes, &high);
    append_words(&mut bytes, &low);
    proof {
        lemma_words_concat(high@, low@);
        assert(high@ + low@ =~= stream_order(solutions@).map_values(word_of));
        assert(bytes@ =~= stream_of(solutions@));
    }
    Ok(bytes)
}

/// The bytes of two lists of words, one list behind the other.
pub proof fn lemma_words_concat(a: Seq<u32>, b: Seq<u32>)
    ensures
        words_bytes(a + b) == words_bytes(a) + words_bytes(b),
    decreases b.len(),
{
    if b.len() == 0 {
        assert(a + b =~= a);
        assert(words_bytes(a) + words_bytes(b) =~= words_bytes(a));
    } else {
        lemma_words_concat(a, b.drop_last());
        assert((a + b).drop_last() =~= a + b.drop_last());
        assert((a + b).last() == b.last());
        assert(words_bytes(a + b) =~= words_bytes(a) + words_bytes(b));
    }
}

/// Puts the bytes of the words behind the bytes that are there.
fn append_words(bytes: &mut Vec<u8>, words: &Vec<u32>)
    ensures
        final(bytes)@ == old(bytes)@ + words_bytes(words@),
{
    let mut i: usize = 0;
    proof {
        assert(words@.subrange(0, 0) =~= Seq::<u32>::empty());
        assert(bytes@ =~= old(bytes)@ + words_bytes(words@.subrange(0, 0)));
    }
    while i < words.len()
        invariant
            0 <= i <= words.len(),
            bytes@ == old(bytes)@ + words_bytes(words@.subrange(0, i as int)),
        decreases words.len() - i,
    {
        let mut four = u32_to_le_bytes(words[i]);
        proof {
            lemma_auto_spec_u32_to_from_le_bytes();
            assert(words@.subrange(0, i + 1).drop_last() =~= words@.subrange(0, i as int));
        }
        bytes.append(&mut four);
        i = i + 1;
        proof {
            assert(bytes@ =~= old(bytes)@ + words_bytes(words@.subrange(0, i as int)));
        }
    }
    proof {
        assert(words@.subrange(0, words.len() as int) =~= words@);
    }
}

/// The boards of a stream, or an error where the stream has no count or
/// fewer words than the count says. Bytes after the last whole word are
/// ignored.
pub fn decode_solutions(bytes: &[u8]) -> (r: Result<Vec<Board>, CacheError>)
    ensures
        match r {
            Ok(boards) => decoded(bytes@) == Some(boards@),
            Err(e) => e == CacheError::Truncated && decoded(bytes@) is None,
        },
{
    if bytes.len() < 4 {
        return Err(CacheError::Truncated);
    }
    let count = u32_from_le_bytes(vstd::slice::slice_subrange(bytes, 0, 4)) as usize;
    let words = bytes.len() / 4 - 1;
    if count > words {
        return Err(CacheError::Truncated);
    }
    let mut boards: Vec<Board> = Vec::new();
    let mut i: usize = 0;
    while i < words
        invariant
            0 <= i <= words,
            words == bytes@.len() / 4 - 1,
            4 * (words + 1) <= bytes@.len() <= usize::MAX,
            count == word_at(bytes@, 0),
            boards.len() == i,
            forall|k: int| 0 <= k < i ==> #[trigger] boards[k] == board_at(bytes@, count as int, k),
        decreases words - i,
    {
        let at = 4 * (i + 1);
        let word = u32_from_le_bytes(vstd::slice::slice_subrange(bytes, at, at + 4)) as u64;
        let key = if i < count {
            word | HIGH_BIT
        } else {
            word
        };
        boards.push(Board::from_compressed_repr(key));
        i = i + 1;
    }
    proof {
        assert(boards@ =~= Seq::new(words as nat, |i: int| board_at(bytes@, count as int, i)));
    }
    Ok(boards)
}

/// Reading the stream of a list of well-formed boards gives the boards back,
/// in the order of the stream.
pub proof fn lemma_stream_roundtrip(boards: Seq<Board>)
    requires
        forall|i: int| 0 <= i < boards.len() ==> (#[trigger] boards[i]).wf(),
        boards.filter(|b: Board| is_high(b)).len() <= u32::MAX,
    ensures
        decoded(stream_of(boards)) == Some(stream_order(boards)),
        stream_order(boards).to_set() == boards.to_set(),
{
    broadcast use vstd::seq_lib::group_filter_ensures;

    let high_of = |b: Board| is_high(b);
    let low_of = |b: Board| !is_high(b);
    let high = boards.filter(high_of);
    let low = boards.filter(low_of);
    let order = stream_order(boards);
    let words = order.map_values(|b: Board| low_word(b));
    let head = spec_u32_to_le_bytes(high.len() as u32);
    let bytes = stream_of(boards);
    lemma_auto_spec_u32_to_from_le_bytes();
    lemma_words_bytes(words);
    assert(bytes.subrange(0, 4) =~= head);
    assert(bytes.len() == 4 + 4 * order.len());
    let got = decoded(bytes)->Some_0;
    assert forall|i: int| 0 <= i < order.len() implies board_at(bytes, high.len() as int, i)
        == order[i] by {
        assert(bytes.subrange(4 * (i + 1), 4 * (i + 1) + 4) =~= words_bytes(words).subrange(
            4 * i,
            4 * i + 4,
        ));
        assert(word_at(bytes, i + 1) == words[i]);
        let b = order[i];
        if i < high.len() {
            assert(b == high[i]);
            assert(high_of(b));
            assert(high.contains(b));
            boards.lemma_filter_contains_rev(high_of, b);
        } else {
            assert(b == low[i - high.len()]);
            assert(low_of(b));
            assert(low.contains(b));
            boards.lemma_filter_contains_rev(low_of, b);
        }
        assert(boards.contains(b));
        b.lemma_compressed_bits();
        b.lemma_compress_roundtrip();
        lemma_low_word(b.spec_compressed());
    }
    assert(got =~= order);
    assert forall|b: Board| order.contains(b) <==> boards.contains(b) by {
        crate::moves::lemma_concat_contains(high, low, b);
        if high.contains(b) {
            boards.lemma_filter_contains_rev(high_of, b);
        }
        if low.contains(b) {
            boards.lemma_filter_contains_rev(low_of, b);
        }
        if boards.contains(b) {
            let i = choose|i: int| 0 <= i < boards.len() && boards[i] == b;
            if is_high(b) {
                assert(high_of(boards[i]));
                assert(high.contains(boards[i]));
            } else {
                assert(low_of(boards[i]));
                assert(low.contains(boards[i]));
            }
        }
    }
    assert(order.to_set() =~= boards.to_set());
}

/// The boards as Brotli-compressed bytes, to be kept on disk: bytes that
/// decompress to the stream of the boards. It fails only where the boards
/// whose compressed form has bit 32 set are too many to be counted in 32 bits.
pub fn save_solutions(solutions: &[Board]) -> (r: Result<Vec<u8>, CacheError>)
    ensures
        match r {
            Ok(compressed) => brotli_decoded(compressed@) == Some(stream_of(solutions@))
                && solutions@.filter(|b: Board| is_high(b)).len() <= u32::MAX,
            Err(e) => e == CacheError::TooManyBoards && solutions@.filter(
                |b: Board| is_high(b),
            ).len() > u32::MAX,
        },
{
    match encode_solutions(solutions) {
        Ok(bytes) => Ok(brotli_compress(bytes.as_slice())),
        Err(e) => Err(e),
    }
}

/// Bytes that decompress to the stream of a list of well-formed boards hold
/// these boards: reading the stream gives a list with the same boards, so
/// loading what was saved gives the set of the boards that were saved.
pub proof fn lemma_saved_loads(boards: Seq<Board>, compressed: Seq<u8>)
    requires
        forall|i: int| 0 <= i < boards.len() ==> (#[trigger] boards[i]).wf(),
        boards.filter(|b: Board| is_high(b)).len() <= u32::MAX,
        brotli_decoded(compressed) == Some(stream_of(boards)),
    ensures
        brotli_decoded(compressed) matches Some(bytes) && decoded(bytes) matches Some(list)
            && list.to_set() == boards.to_set(),
{
    lemma_stream_roundtrip(boards);
}

/// The set of the solvable boards that Brotli-compressed bytes hold.
pub fn load_solutions(compressed: &[u8]) -> (r: Result<BoardSet, CacheError>)
    ensures
        match r {
            Ok(set) => brotli_decoded(compressed@) matches Some(bytes) && decoded(bytes) matches Some(
                boards,
            ) && set@ == boards.to_set(),
            Err(e) => match brotli_decoded(compressed@) {
                None => e == CacheError::Corrupt,
                Some(bytes) => e == CacheError::Truncated && decoded(bytes) is None,
            },
        },
{
    let bytes = match brotli_decompress(compressed) {
        Some(bytes) => bytes,
        None => {
            return Err(CacheError::Corrupt);
        },
    };
    let boards = match decode_solutions(bytes.as_slice()) {
        Ok(boards) => boards,
        Err(e) => {
            return Err(e);
        },
    };
    let mut solutions = BoardSet::new();
    let mut i: usize = 0;
    while i < boards.len()
        invariant
            0 <= i <= boards.len(),
            solutions@ == boards@.subrange(0, i as int).to_set(),
        decreases boards.len() - i,
    {
        solutions.insert(boards[i]);
        proof {
            let prefix = boards@.subrange(0, i as int);
            assert(boards@.subrange(0, i + 1) =~= prefix.push(boards@[i as int]));
            prefix.lemma_push_to_set_commute(boards@[i as int]);
        }
        i = i + 1;
    }
    proof {
        assert(boards@.subrange(0, boards.len() as int) =~= boards@);
    }
    Ok(solutions)
}

} // verus!
