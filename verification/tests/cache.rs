use solitaire_solver::cache::{decode_solutions, encode_solutions};
use solitaire_solver::expand::reverse_moves;
use solitaire_solver::parallel::dedup_boards;
use solitaire_solver::{load_solutions, save_solutions, Board, CacheError, Sort};
use std::io::Write;

fn some_layers() -> Vec<Board> {
    let mut all = vec![Board::solved(), Board::default()];
    let mut layer = vec![Board::solved()];
    for _ in 0..6 {
        let mut next = reverse_moves(&layer);
        next.fast_sort_unstable();
        layer = dedup_boards(&next);
        for b in &layer {
            all.push(*b);
            all.push(b.inverse().normalize());
        }
    }
    all
}

#[test]
fn stream_layout() {
    let high = Board::from_compressed_repr(0x1_0000_0005);
    let low = Board::from_compressed_repr(0x0_0102_0304);
    let other = Board::from_compressed_repr(0x1_ffff_fffe);
    let bytes = encode_solutions(&[low, high, other]).unwrap();
    assert_eq!(
        bytes,
        vec![2, 0, 0, 0, 5, 0, 0, 0, 0xfe, 0xff, 0xff, 0xff, 4, 3, 2, 1]
    );
    assert_eq!(decode_solutions(&bytes), Ok(vec![high, other, low]));
    assert_eq!(encode_solutions(&[]), Ok(vec![0, 0, 0, 0]));
    assert_eq!(decode_solutions(&[0, 0, 0, 0]), Ok(vec![]));
}

#[test]
fn stream_round_trip() {
    let boards = some_layers();
    let bytes = encode_solutions(&boards).unwrap();
    assert_eq!(bytes.len(), 4 + 4 * boards.len());
    let back = decode_solutions(&bytes).unwrap();
    assert_eq!(back.len(), boards.len());
    let mut a = boards.clone();
    let mut b = back.clone();
    a.sort();
    b.sort();
    assert_eq!(a, b);
    // the boards with bit 32 come first
    let first_low = back.iter().position(|b| b.to_compressed_repr() < 1 << 32).unwrap();
    assert!(back[..first_low].iter().all(|b| b.to_compressed_repr() >= 1 << 32));
    assert!(back[first_low..].iter().all(|b| b.to_compressed_repr() < 1 << 32));
}

#[test]
fn truncated_streams() {
    assert_eq!(decode_solutions(&[]), Err(CacheError::Truncated));
    assert_eq!(decode_solutions(&[1, 0, 0]), Err(CacheError::Truncated));
    assert_eq!(decode_solutions(&[1, 0, 0, 0]), Err(CacheError::Truncated));
    assert_eq!(decode_solutions(&[2, 0, 0, 0, 1, 0, 0, 0, 9]), Err(CacheError::Truncated));
    // bytes after the last whole word are ignored
    assert_eq!(
        decode_solutions(&[0, 0, 0, 0, 1, 0, 0, 0, 9, 9]),
        Ok(vec![Board::from_compressed_repr(1)])
    );
    assert_eq!(
        decode_solutions(&[1, 0, 0, 0, 1, 0, 0, 0]),
        Ok(vec![Board::from_compressed_repr(0x1_0000_0001)])
    );
}

#[test]
fn compressed_round_trip() {
    let boards = some_layers();
    let stream = encode_solutions(&boards).unwrap();
    let compressed = save_solutions(&boards).unwrap();
    assert_ne!(compressed, stream);
    assert!(compressed.len() < stream.len());
    let set = load_solutions(&compressed).unwrap();
    assert_eq!(set.len(), {
        let mut unique = boards.clone();
        unique.sort();
        unique.dedup();
        unique.len()
    });
    for b in &boards {
        assert!(set.contains(b));
    }
    assert!(!set.contains(&Board::full()));
}

#[test]
fn corrupt_data() {
    assert!(matches!(load_solutions(&[1, 2, 3, 4, 5, 6, 7, 8, 9]), Err(CacheError::Corrupt)));
    // a plain stream is no compressed data
    let stream = encode_solutions(&some_layers()).unwrap();
    assert!(load_solutions(&stream).is_err());
}

#[test]
fn no_boards_saved() {
    // the stream of no boards holds the count alone
    let nothing = save_solutions(&[]).unwrap();
    assert!(!nothing.is_empty());
    assert_eq!(load_solutions(&nothing).unwrap().len(), 0);
}

fn compressed(bytes: &[u8]) -> Vec<u8> {
    let mut writer = brotli::CompressorWriter::new(Vec::new(), 4096, 11, 22);
    writer.write_all(bytes).unwrap();
    writer.into_inner()
}

#[test]
fn compressed_data_with_a_short_stream() {
    // no count at all
    assert!(matches!(load_solutions(&compressed(&[])), Err(CacheError::Truncated)));
    assert!(matches!(load_solutions(&compressed(&[1, 0, 0])), Err(CacheError::Truncated)));
    // fewer words than the count says
    assert!(matches!(load_solutions(&compressed(&[1, 0, 0, 0])), Err(CacheError::Truncated)));
    assert!(matches!(
        load_solutions(&compressed(&[2, 0, 0, 0, 1, 0, 0, 0, 9])),
        Err(CacheError::Truncated)
    ));
    // as many words as the count says
    let set = load_solutions(&compressed(&[1, 0, 0, 0, 1, 0, 0, 0, 7, 0, 0, 0])).unwrap();
    assert_eq!(set.len(), 2);
    assert!(set.contains(&Board::from_compressed_repr(0x1_0000_0001)));
    assert!(set.contains(&Board::from_compressed_repr(7)));
}
