//! A solution of the game, written down, and with it the proof that the game
//! can be won.

use crate::bits::bit;
use crate::board::{in_cross, Board, CENTER_MASK};
use crate::dir::Dir;
use crate::mov::Move;
use crate::reach::{can_win, leads, lemma_leads_push};
use crate::solution::solves;
use vstd::prelude::*;

verus! {

/// The `i`-th of thirty-one moves that lead from the board of the start to
/// the goal.
pub open spec fn known_move(i: int) -> Move {
    if i == 0 {
        Move { pos: (1, 3), skip: (2, 3), target: (3, 3) }
    } else if i == 1 {
        Move { pos: (2, 1), skip: (2, 2), target: (2, 3) }
    } else if i == 2 {
        Move { pos: (0, 2), skip: (1, 2), target: (2, 2) }
    } else if i == 3 {
        Move { pos: (0, 4), skip: (0, 3), target: (0, 2) }
    } else if i == 4 {
        Move { pos: (2, 3), skip: (2, 2), target: (2, 1) }
    } else if i == 5 {
        Move { pos: (2, 0), skip: (2, 1), target: (2, 2) }
    } else if i == 6 {
        Move { pos: (2, 4), skip: (1, 4), target: (0, 4) }
    } else if i == 7 {
        Move { pos: (2, 6), skip: (2, 5), target: (2, 4) }
    } else if i == 8 {
        Move { pos: (3, 2), skip: (2, 2), target: (1, 2) }
    } else if i == 9 {
        Move { pos: (3, 0), skip: (3, 1), target: (3, 2) }
    } else if i == 10 {
        Move { pos: (0, 2), skip: (1, 2), target: (2, 2) }
    } else if i == 11 {
        Move { pos: (3, 2), skip: (2, 2), target: (1, 2) }
    } else if i == 12 {
        Move { pos: (3, 4), skip: (2, 4), target: (1, 4) }
    } else if i == 13 {
        Move { pos: (0, 4), skip: (1, 4), target: (2, 4) }
    } else if i == 14 {
        Move { pos: (3, 6), skip: (3, 5), target: (3, 4) }
    } else if i == 15 {
        Move { pos: (3, 4), skip: (2, 4), target: (1, 4) }
    } else if i == 16 {
        Move { pos: (5, 2), skip: (4, 2), target: (3, 2) }
    } else if i == 17 {
        Move { pos: (4, 0), skip: (4, 1), target: (4, 2) }
    } else if i == 18 {
        Move { pos: (4, 2), skip: (3, 2), target: (2, 2) }
    } else if i == 19 {
        Move { pos: (1, 2), skip: (2, 2), target: (3, 2) }
    } else if i == 20 {
        Move { pos: (3, 2), skip: (3, 3), target: (3, 4) }
    } else if i == 21 {
        Move { pos: (4, 4), skip: (3, 4), target: (2, 4) }
    } else if i == 22 {
        Move { pos: (1, 4), skip: (2, 4), target: (3, 4) }
    } else if i == 23 {
        Move { pos: (4, 6), skip: (4, 5), target: (4, 4) }
    } else if i == 24 {
        Move { pos: (4, 3), skip: (4, 4), target: (4, 5) }
    } else if i == 25 {
        Move { pos: (6, 4), skip: (5, 4), target: (4, 4) }
    } else if i == 26 {
        Move { pos: (6, 2), skip: (6, 3), target: (6, 4) }
    } else if i == 27 {
        Move { pos: (3, 4), skip: (4, 4), target: (5, 4) }
    } else if i == 28 {
        Move { pos: (6, 4), skip: (5, 4), target: (4, 4) }
    } else if i == 29 {
        Move { pos: (4, 5), skip: (4, 4), target: (4, 3) }
    } else {
        Move { pos: (5, 3), skip: (4, 3), target: (3, 3) }
    }
}

/// The word of the board before the `i`-th of the known moves; for 31, the
/// word of the goal.
pub open spec fn known_word(i: int) -> u64 {
    if i == 0 {
        0x001c_1c7f_777f_1c1cu64
    } else if i == 1 {
        0x001c_1c7f_7f77_141cu64
    } else if i == 2 {
        0x001c_1c7f_7f79_141cu64
    } else if i == 3 {
        0x001c_1c7f_7f7d_1018u64
    } else if i == 4 {
        0x001c_1c7f_7f7d_1004u64
    } else if i == 5 {
        0x001c_1c7f_7f73_1004u64
    } else if i == 6 {
        0x001c_1c7f_7f74_1004u64
    } else if i == 7 {
        0x001c_1c7f_7f64_0014u64
    } else if i == 8 {
        0x001c_1c7f_7f14_0014u64
    } else if i == 9 {
        0x001c_1c7f_7b10_0414u64
    } else if i == 10 {
        0x001c_1c7f_7c10_0414u64
    } else if i == 11 {
        0x001c_1c7f_7c14_0010u64
    } else if i == 12 {
        0x001c_1c7f_7810_0410u64
    } else if i == 13 {
        0x001c_1c7f_6800_1410u64
    } else if i == 14 {
        0x001c_1c7f_6810_0400u64
    } else if i == 15 {
        0x001c_1c7f_1810_0400u64
    } else if i == 16 {
        0x001c_1c7f_0800_1400u64
    } else if i == 17 {
        0x001c_187b_0c00_1400u64
    } else if i == 18 {
        0x001c_187c_0c00_1400u64
    } else if i == 19 {
        0x001c_1878_0804_1400u64
    } else if i == 20 {
        0x001c_1878_0c00_1000u64
    } else if i == 21 {
        0x001c_1878_1000_1000u64
    } else if i == 22 {
        0x001c_1868_0010_1000u64
    } else if i == 23 {
        0x001c_1868_1000_0000u64
    } else if i == 24 {
        0x001c_1818_1000_0000u64
    } else if i == 25 {
        0x001c_1820_1000_0000u64
    } else if i == 26 {
        0x000c_0830_1000_0000u64
    } else if i == 27 {
        0x0010_0830_1000_0000u64
    } else if i == 28 {
        0x0010_1820_0000_0000u64
    } else if i == 29 {
        0x0000_0830_0000_0000u64
    } else if i == 30 {
        0x0000_0808_0000_0000u64
    } else {
        0x0000_0000_0800_0000u64
    }
}

/// Thirty-one moves that lead from the board of the start to the goal.
pub open spec fn known_moves() -> Seq<Move> {
    Seq::new(31, |i: int| known_move(i))
}

/// What one move does to a word: the two bits of the peg and of the peg it
/// jumps over go, and the bit of the landing cell comes.
pub open spec fn played(word: u64, peg: u64, over: u64, landing: u64) -> u64 {
    (word & !(1u64 << peg) & !(1u64 << over)) | (1u64 << landing)
}

proof fn lemma_known_words()
    by (bit_vector)
    ensures
        bit(0x001c_1c7f_777f_1c1cu64, 11) && bit(0x001c_1c7f_777f_1c1cu64, 19) && !bit(0x001c_1c7f_777f_1c1cu64, 27) && played(
            0x001c_1c7f_777f_1c1cu64,
            11,
            19,
            27,
        ) == 0x001c_1c7f_7f77_141cu64,
        bit(0x001c_1c7f_7f77_141cu64, 17) && bit(0x001c_1c7f_7f77_141cu64, 18) && !bit(0x001c_1c7f_7f77_141cu64, 19) && played(
            0x001c_1c7f_7f77_141cu64,
            17,
            18,
            19,
        ) == 0x001c_1c7f_7f79_141cu64,
        bit(0x001c_1c7f_7f79_141cu64, 2) && bit(0x001c_1c7f_7f79_141cu64, 10) && !bit(0x001c_1c7f_7f79_141cu64, 18) && played(
            0x001c_1c7f_7f79_141cu64,
            2,
            10,
            18,
        ) == 0x001c_1c7f_7f7d_1018u64,
        bit(0x001c_1c7f_7f7d_1018u64, 4) && bit(0x001c_1c7f_7f7d_1018u64, 3) && !bit(0x001c_1c7f_7f7d_1018u64, 2) && played(
            0x001c_1c7f_7f7d_1018u64,
            4,
            3,
            2,
        ) == 0x001c_1c7f_7f7d_1004u64,
        bit(0x001c_1c7f_7f7d_1004u64, 19) && bit(0x001c_1c7f_7f7d_1004u64, 18) && !bit(0x001c_1c7f_7f7d_1004u64, 17) && played(
            0x001c_1c7f_7f7d_1004u64,
            19,
            18,
            17,
        ) == 0x001c_1c7f_7f73_1004u64,
        bit(0x001c_1c7f_7f73_1004u64, 16) && bit(0x001c_1c7f_7f73_1004u64, 17) && !bit(0x001c_1c7f_7f73_1004u64, 18) && played(
            0x001c_1c7f_7f73_1004u64,
            16,
            17,
            18,
        ) == 0x001c_1c7f_7f74_1004u64,
        bit(0x001c_1c7f_7f74_1004u64, 20) && bit(0x001c_1c7f_7f74_1004u64, 12) && !bit(0x001c_1c7f_7f74_1004u64, 4) && played(
            0x001c_1c7f_7f74_1004u64,
            20,
            12,
            4,
        ) == 0x001c_1c7f_7f64_0014u64,
        bit(0x001c_1c7f_7f64_0014u64, 22) && bit(0x001c_1c7f_7f64_0014u64, 21) && !bit(0x001c_1c7f_7f64_0014u64, 20) && played(
            0x001c_1c7f_7f64_0014u64,
            22,
            21,
            20,
        ) == 0x001c_1c7f_7f14_0014u64,
        bit(0x001c_1c7f_7f14_0014u64, 26) && bit(0x001c_1c7f_7f14_0014u64, 18) && !bit(0x001c_1c7f_7f14_0014u64, 10) && played(
            0x001c_1c7f_7f14_0014u64,
            26,
            18,
            10,
        ) == 0x001c_1c7f_7b10_0414u64,
        bit(0x001c_1c7f_7b10_0414u64, 24) && bit(0x001c_1c7f_7b10_0414u64, 25) && !bit(0x001c_1c7f_7b10_0414u64, 26) && played(
            0x001c_1c7f_7b10_0414u64,
            24,
            25,
            26,
        ) == 0x001c_1c7f_7c10_0414u64,
        bit(0x001c_1c7f_7c10_0414u64, 2) && bit(0x001c_1c7f_7c10_0414u64, 10) && !bit(0x001c_1c7f_7c10_0414u64, 18) && played(
            0x001c_1c7f_7c10_0414u64,
            2,
            10,
            18,
        ) == 0x001c_1c7f_7c14_0010u64,
        bit(0x001c_1c7f_7c14_0010u64, 26) && bit(0x001c_1c7f_7c14_0010u64, 18) && !bit(0x001c_1c7f_7c14_0010u64, 10) && played(
            0x001c_1c7f_7c14_0010u64,
            26,
            18,
            10,
        ) == 0x001c_1c7f_7810_0410u64,
        bit(0x001c_1c7f_7810_0410u64, 28) && bit(0x001c_1c7f_7810_0410u64, 20) && !bit(0x001c_1c7f_7810_0410u64, 12) && played(
            0x001c_1c7f_7810_0410u64,
            28,
            20,
            12,
        ) == 0x001c_1c7f_6800_1410u64,
        bit(0x001c_1c7f_6800_1410u64, 4) && bit(0x001c_1c7f_6800_1410u64, 12) && !bit(0x001c_1c7f_6800_1410u64, 20) && played(
            0x001c_1c7f_6800_1410u64,
            4,
            12,
            20,
        ) == 0x001c_1c7f_6810_0400u64,
        bit(0x001c_1c7f_6810_0400u64, 30) && bit(0x001c_1c7f_6810_0400u64, 29) && !bit(0x001c_1c7f_6810_0400u64, 28) && played(
            0x001c_1c7f_6810_0400u64,
            30,
            29,
            28,
        ) == 0x001c_1c7f_1810_0400u64,
        bit(0x001c_1c7f_1810_0400u64, 28) && bit(0x001c_1c7f_1810_0400u64, 20) && !bit(0x001c_1c7f_1810_0400u64, 12) && played(
            0x001c_1c7f_1810_0400u64,
            28,
            20,
            12,
        ) == 0x001c_1c7f_0800_1400u64,
        bit(0x001c_1c7f_0800_1400u64, 42) && bit(0x001c_1c7f_0800_1400u64, 34) && !bit(0x001c_1c7f_0800_1400u64, 26) && played(
            0x001c_1c7f_0800_1400u64,
            42,
            34,
            26,
        ) == 0x001c_187b_0c00_1400u64,
        bit(0x001c_187b_0c00_1400u64, 32) && bit(0x001c_187b_0c00_1400u64, 33) && !bit(0x001c_187b_0c00_1400u64, 34) && played(
            0x001c_187b_0c00_1400u64,
            32,
            33,
            34,
        ) == 0x001c_187c_0c00_1400u64,
        bit(0x001c_187c_0c00_1400u64, 34) && bit(0x001c_187c_0c00_1400u64, 26) && !bit(0x001c_187c_0c00_1400u64, 18) && played(
            0x001c_187c_0c00_1400u64,
            34,
            26,
            18,
        ) == 0x001c_1878_0804_1400u64,
        bit(0x001c_1878_0804_1400u64, 10) && bit(0x001c_1878_0804_1400u64, 18) && !bit(0x001c_1878_0804_1400u64, 26) && played(
            0x001c_1878_0804_1400u64,
            10,
            18,
            26,
        ) == 0x001c_1878_0c00_1000u64,
        bit(0x001c_1878_0c00_1000u64, 26) && bit(0x001c_1878_0c00_1000u64, 27) && !bit(0x001c_1878_0c00_1000u64, 28) && played(
            0x001c_1878_0c00_1000u64,
            26,
            27,
            28,
        ) == 0x001c_1878_1000_1000u64,
        bit(0x001c_1878_1000_1000u64, 36) && bit(0x001c_1878_1000_1000u64, 28) && !bit(0x001c_1878_1000_1000u64, 20) && played(
            0x001c_1878_1000_1000u64,
            36,
            28,
            20,
        ) == 0x001c_1868_0010_1000u64,
        bit(0x001c_1868_0010_1000u64, 12) && bit(0x001c_1868_0010_1000u64, 20) && !bit(0x001c_1868_0010_1000u64, 28) && played(
            0x001c_1868_0010_1000u64,
            12,
            20,
            28,
        ) == 0x001c_1868_1000_0000u64,
        bit(0x001c_1868_1000_0000u64, 38) && bit(0x001c_1868_1000_0000u64, 37) && !bit(0x001c_1868_1000_0000u64, 36) && played(
            0x001c_1868_1000_0000u64,
            38,
            37,
            36,
        ) == 0x001c_1818_1000_0000u64,
        bit(0x001c_1818_1000_0000u64, 35) && bit(0x001c_1818_1000_0000u64, 36) && !bit(0x001c_1818_1000_0000u64, 37) && played(
            0x001c_1818_1000_0000u64,
            35,
            36,
            37,
        ) == 0x001c_1820_1000_0000u64,
        bit(0x001c_1820_1000_0000u64, 52) && bit(0x001c_1820_1000_0000u64, 44) && !bit(0x001c_1820_1000_0000u64, 36) && played(
            0x001c_1820_1000_0000u64,
            52,
            44,
            36,
        ) == 0x000c_0830_1000_0000u64,
        bit(0x000c_0830_1000_0000u64, 50) && bit(0x000c_0830_1000_0000u64, 51) && !bit(0x000c_0830_1000_0000u64, 52) && played(
            0x000c_0830_1000_0000u64,
            50,
            51,
            52,
        ) == 0x0010_0830_1000_0000u64,
        bit(0x0010_0830_1000_0000u64, 28) && bit(0x0010_0830_1000_0000u64, 36) && !bit(0x0010_0830_1000_0000u64, 44) && played(
            0x0010_0830_1000_0000u64,
            28,
            36,
            44,
        ) == 0x0010_1820_0000_0000u64,
        bit(0x0010_1820_0000_0000u64, 52) && bit(0x0010_1820_0000_0000u64, 44) && !bit(0x0010_1820_0000_0000u64, 36) && played(
            0x0010_1820_0000_0000u64,
            52,
            44,
            36,
        ) == 0x0000_0830_0000_0000u64,
        bit(0x0000_0830_0000_0000u64, 37) && bit(0x0000_0830_0000_0000u64, 36) && !bit(0x0000_0830_0000_0000u64, 35) && played(
            0x0000_0830_0000_0000u64,
            37,
            36,
            35,
        ) == 0x0000_0808_0000_0000u64,
        bit(0x0000_0808_0000_0000u64, 43) && bit(0x0000_0808_0000_0000u64, 35) && !bit(0x0000_0808_0000_0000u64, 27) && played(
            0x0000_0808_0000_0000u64,
            43,
            35,
            27,
        ) == 0x0000_0000_0800_0000u64,
{
}

/// A move on a board given by its word: where the bits are as a legal move
/// wants them, the move is legal and gives the board of the word that the
/// move makes of the word.
proof fn lemma_word_move(word: u64, m: Move, dir: Dir)
    requires
        m.along(dir),
        in_cross(m.pos.0 as int, m.pos.1 as int),
        in_cross(m.target.0 as int, m.target.1 as int),
        bit(word, 8 * m.pos.0 + m.pos.1),
        bit(word, 8 * m.skip.0 + m.skip.1),
        !bit(word, 8 * m.target.0 + m.target.1),
    ensures
        Board(word).legal(m),
        Board(word).spec_mov(m) == Board(
            played(
                word,
                (8 * m.pos.0 + m.pos.1) as u64,
                (8 * m.skip.0 + m.skip.1) as u64,
                (8 * m.target.0 + m.target.1) as u64,
            ),
        ),
{
}

/// Each of the known moves is legal on the board before it and gives the
/// board after it.
proof fn lemma_known_step(i: int)
    requires
        0 <= i < 31,
    ensures
        Board(known_word(i)).legal(known_move(i)),
        Board(known_word(i)).spec_mov(known_move(i)) == Board(known_word(i + 1)),
{
    lemma_known_words();
    if i == 0 {
        lemma_word_move(0x001c_1c7f_777f_1c1cu64, Move { pos: (1, 3), skip: (2, 3), target: (3, 3) }, Dir::South);
    } else if i == 1 {
        lemma_word_move(0x001c_1c7f_7f77_141cu64, Move { pos: (2, 1), skip: (2, 2), target: (2, 3) }, Dir::East);
    } else if i == 2 {
        lemma_word_move(0x001c_1c7f_7f79_141cu64, Move { pos: (0, 2), skip: (1, 2), target: (2, 2) }, Dir::South);
    } else if i == 3 {
        lemma_word_move(0x001c_1c7f_7f7d_1018u64, Move { pos: (0, 4), skip: (0, 3), target: (0, 2) }, Dir::West);
    } else if i == 4 {
        lemma_word_move(0x001c_1c7f_7f7d_1004u64, Move { pos: (2, 3), skip: (2, 2), target: (2, 1) }, Dir::West);
    } else if i == 5 {
        lemma_word_move(0x001c_1c7f_7f73_1004u64, Move { pos: (2, 0), skip: (2, 1), target: (2, 2) }, Dir::East);
    } else if i == 6 {
        lemma_word_move(0x001c_1c7f_7f74_1004u64, Move { pos: (2, 4), skip: (1, 4), target: (0, 4) }, Dir::North);
    } else if i == 7 {
        lemma_word_move(0x001c_1c7f_7f64_0014u64, Move { pos: (2, 6), skip: (2, 5), target: (2, 4) }, Dir::West);
    } else if i == 8 {
        lemma_word_move(0x001c_1c7f_7f14_0014u64, Move { pos: (3, 2), skip: (2, 2), target: (1, 2) }, Dir::North);
    } else if i == 9 {
        lemma_word_move(0x001c_1c7f_7b10_0414u64, Move { pos: (3, 0), skip: (3, 1), target: (3, 2) }, Dir::East);
    } else if i == 10 {
        lemma_word_move(0x001c_1c7f_7c10_0414u64, Move { pos: (0, 2), skip: (1, 2), target: (2, 2) }, Dir::South);
    } else if i == 11 {
        lemma_word_move(0x001c_1c7f_7c14_0010u64, Move { pos: (3, 2), skip: (2, 2), target: (1, 2) }, Dir::North);
    } else if i == 12 {
        lemma_word_move(0x001c_1c7f_7810_0410u64, Move { pos: (3, 4), skip: (2, 4), target: (1, 4) }, Dir::North);
    } else if i == 13 {
        lemma_word_move(0x001c_1c7f_6800_1410u64, Move { pos: (0, 4), skip: (1, 4), target: (2, 4) }, Dir::South);
    } else if i == 14 {
        lemma_word_move(0x001c_1c7f_6810_0400u64, Move { pos: (3, 6), skip: (3, 5), target: (3, 4) }, Dir::West);
    } else if i == 15 {
        lemma_word_move(0x001c_1c7f_1810_0400u64, Move { pos: (3, 4), skip: (2, 4), target: (1, 4) }, Dir::North);
    } else if i == 16 {
        lemma_word_move(0x001c_1c7f_0800_1400u64, Move { pos: (5, 2), skip: (4, 2), target: (3, 2) }, Dir::North);
    } else if i == 17 {
        lemma_word_move(0x001c_187b_0c00_1400u64, Move { pos: (4, 0), skip: (4, 1), target: (4, 2) }, Dir::East);
    } else if i == 18 {
        lemma_word_move(0x001c_187c_0c00_1400u64, Move { pos: (4, 2), skip: (3, 2), target: (2, 2) }, Dir::North);
    } else if i == 19 {
        lemma_word_move(0x001c_1878_0804_1400u64, Move { pos: (1, 2), skip: (2, 2), target: (3, 2) }, Dir::South);
    } else if i == 20 {
        lemma_word_move(0x001c_1878_0c00_1000u64, Move { pos: (3, 2), skip: (3, 3), target: (3, 4) }, Dir::East);
    } else if i == 21 {
        lemma_word_move(0x001c_1878_1000_1000u64, Move { pos: (4, 4), skip: (3, 4), target: (2, 4) }, Dir::North);
    } else if i == 22 {
        lemma_word_move(0x001c_1868_0010_1000u64, Move { pos: (1, 4), skip: (2, 4), target: (3, 4) }, Dir::South);
    } else if i == 23 {
        lemma_word_move(0x001c_1868_1000_0000u64, Move { pos: (4, 6), skip: (4, 5), target: (4, 4) }, Dir::West);
    } else if i == 24 {
        lemma_word_move(0x001c_1818_1000_0000u64, Move { pos: (4, 3), skip: (4, 4), target: (4, 5) }, Dir::East);
    } else if i == 25 {
        lemma_word_move(0x001c_1820_1000_0000u64, Move { pos: (6, 4), skip: (5, 4), target: (4, 4) }, Dir::North);
    } else if i == 26 {
        lemma_word_move(0x000c_0830_1000_0000u64, Move { pos: (6, 2), skip: (6, 3), target: (6, 4) }, Dir::East);
    } else if i == 27 {
        lemma_word_move(0x0010_0830_1000_0000u64, Move { pos: (3, 4), skip: (4, 4), target: (5, 4) }, Dir::South);
    } else if i == 28 {
        lemma_word_move(0x0010_1820_0000_0000u64, Move { pos: (6, 4), skip: (5, 4), target: (4, 4) }, Dir::North);
    } else if i == 29 {
        lemma_word_move(0x0000_0830_0000_0000u64, Move { pos: (4, 5), skip: (4, 4), target: (4, 3) }, Dir::West);
    } else {
        lemma_word_move(0x0000_0808_0000_0000u64, Move { pos: (5, 3), skip: (4, 3), target: (3, 3) }, Dir::North);
    }
}

/// The first `n` of the known moves lead from the start to the board before
/// the `n`-th.
proof fn lemma_known_upto(n: int)
    requires
        0 <= n <= 31,
    ensures
        leads(Board::spec_default(), known_moves().subrange(0, n), Board(known_word(n))),
    decreases n,
{
    let start = Board::spec_default();
    if n == 0 {
        assert(known_moves().subrange(0, 0) =~= Seq::<Move>::empty());
        assert(leads(start, Seq::<Move>::empty(), start));
    } else {
        lemma_known_upto(n - 1);
        lemma_known_step(n - 1);
        let before = known_moves().subrange(0, n - 1);
        assert(known_moves().subrange(0, n) =~= before.push(known_move(n - 1)));
        lemma_leads_push(start, before, Board(known_word(n - 1)), known_move(n - 1));
    }
}

/// The known moves solve the game, so the game can be won.
pub proof fn lemma_game_can_be_won()
    ensures
        solves(known_moves()),
        can_win(Board::spec_default()),
        known_moves().len() == 31,
{
    lemma_known_upto(31);
    assert(known_moves().subrange(0, 31) =~= known_moves());
    assert(known_word(31) == CENTER_MASK);
    assert(leads(Board::spec_default(), known_moves(), Board::spec_solved()));
}

} // verus!
