//! # Presence bitmap
//!
//! A set of bytes as 256 bits in four words.

use vstd::prelude::*;

verus! {

/// `byte` is in the set that `bitmap` stands for.
pub open spec fn present(bitmap: Seq<u64>, byte: u8) -> bool {
    bit_of(bitmap[(byte / 64) as int], (byte % 64) as u64)
}

/// Bit `bit` of `word` is set.
pub open spec fn bit_of(word: u64, bit: u64) -> bool {
    word & (1u64 << bit) != 0
}

/// Four empty words stand for the empty set.
pub proof fn lemma_nothing_present(bitmap: Seq<u64>)
    requires
        bitmap.len() == 4,
        forall|i: int| 0 <= i < 4 ==> bitmap[i] == 0,
    ensures
        forall|byte: u8| !#[trigger] present(bitmap, byte),
{
    assert forall|byte: u8| !#[trigger] present(bitmap, byte) by {
        let bit: u64 = (byte % 64) as u64;
        assert(0u64 & (1u64 << bit) == 0) by (bit_vector);
        assert(byte / 64 < 4);
    }
}

/// Checks whether `byte` is in the set.
pub fn is_present(bitmap: &[u64; 4], byte: u8) -> (r: bool)
    ensures
        r == present(bitmap@, byte),
{
    let word: usize = (byte / 64) as usize;
    let bit: u64 = (byte % 64) as u64;
    bitmap[word] & (1u64 << bit) != 0
}

/// Adds `byte` to the set.
pub fn set_bitmap_bit(bitmap: &mut [u64; 4], byte: u8)
    ensures
        forall|b: u8| #[trigger]
            present(final(bitmap)@, b) == (b == byte || present(old(bitmap)@, b)),
{
    let word: usize = (byte / 64) as usize;
    let bit: u64 = (byte % 64) as u64;
    let old_word: u64 = bitmap[word];
    bitmap[word] = old_word | (1u64 << bit);
    proof {
        assert forall|b: u8| #[trigger]
            present(bitmap@, b) == (b == byte || present(old(bitmap)@, b)) by {
            let c: u64 = (b % 64) as u64;
            assert((old_word | (1u64 << bit)) & (1u64 << c) != 0 <==> (c == bit || old_word & (
            1u64 << c) != 0)) by (bit_vector)
                requires
                    bit < 64,
                    c < 64,
            ;
            if b / 64 == byte / 64 && b % 64 == byte % 64 {
                assert(b == byte);
            }
        }
    }
}

/// Takes `byte` out of the set.
pub fn clear_bitmap_bit(bitmap: &mut [u64; 4], byte: u8)
    ensures
        forall|b: u8| #[trigger]
            present(final(bitmap)@, b) == (b != byte && present(old(bitmap)@, b)),
{
    let word: usize = (byte / 64) as usize;
    let bit: u64 = (byte % 64) as u64;
    let old_word: u64 = bitmap[word];
    bitmap[word] = old_word & !(1u64 << bit);
    proof {
        assert forall|b: u8| #[trigger]
            present(bitmap@, b) == (b != byte && present(old(bitmap)@, b)) by {
            let c: u64 = (b % 64) as u64;
            assert((old_word & !(1u64 << bit)) & (1u64 << c) != 0 <==> (c != bit && old_word & (
            1u64 << c) != 0)) by (bit_vector)
                requires
                    bit < 64,
                    c < 64,
            ;
            if b / 64 == byte / 64 && b % 64 == byte % 64 {
                assert(b == byte);
            }
        }
    }
}

/// The smallest byte of the set that is at least `min_byte`.
pub fn next_present_byte(bitmap: &[u64; 4], min_byte: u8) -> (r: Option<u8>)
    ensures
        match r {
            Some(byte) => {
                &&& min_byte <= byte
                &&& present(bitmap@, byte)
                &&& forall|b: u8| min_byte <= b < byte ==> !#[trigger] present(bitmap@, b)
            },
            None => forall|b: u8| min_byte <= b ==> !#[trigger] present(bitmap@, b),
        },
{
    let start_word: usize = (min_byte / 64) as usize;
    let start_bit: u64 = (min_byte % 64) as u64;
    let mut word_idx: usize = start_word;
    while word_idx < 4
        invariant
            start_word == min_byte / 64,
            start_bit == min_byte % 64,
            start_word <= word_idx <= 4,
            forall|b: u8| min_byte <= b && b / 64 < word_idx ==> !#[trigger] present(bitmap@, b),
        decreases 4 - word_idx,
    {
        let full: u64 = bitmap[word_idx];
        let word: u64 = if word_idx == start_word {
            full & (!0u64 << start_bit)
        } else {
            full
        };
        let low: u64 = if word_idx == start_word { start_bit } else { 0 };
        proof {
            assert(full & (!0u64 << 0u64) == full) by (bit_vector);
            assert(word == full & (!0u64 << low));
        }
        if word != 0 {
            let bit: u32 = word.trailing_zeros();
            let bit64: u64 = bit as u64;
            proof {
                vstd::std_specs::bits::axiom_u64_trailing_zeros(word);
                lemma_lowest_bit(full, word, low, bit64);
            }
            let byte: u8 = (word_idx * 64 + bit as usize) as u8;
            proof {
                assert forall|b: u8| min_byte <= b < byte implies !#[trigger] present(
                    bitmap@,
                    b,
                ) by {
                    if b / 64 == word_idx {
                        assert(!bit_of(full, (b % 64) as u64));
                    }
                }
            }
            return Some(byte);
        }
        proof {
            assert forall|b: u8| min_byte <= b && b / 64 < word_idx + 1 implies !#[trigger] present(
                bitmap@,
                b,
            ) by {
                let c: u64 = (b % 64) as u64;
                if b / 64 == word_idx {
                    assert(low <= c);
                    assert(full & (!0u64 << low) == 0 && low <= c && c < 64 ==> full & (1u64 << c)
                        == 0) by (bit_vector);
                }
            }
        }
        word_idx = word_idx + 1;
    }
    None
}

/// The lowest set bit of a word from which the bits below `low` were cleared.
proof fn lemma_lowest_bit(full: u64, word: u64, low: u64, bit: u64)
    requires
        low < 64,
        bit < 64,
        word == full & (!0u64 << low),
        (word >> bit) & 1 == 1,
        forall|j: u64| 0 <= j < bit ==> #[trigger] (word >> j) & 1u64 == 0u64,
    ensures
        low <= bit,
        bit_of(full, bit),
        forall|c: u64| low <= c < bit ==> !#[trigger] bit_of(full, c),
{
    assert(low <= bit && full & (1u64 << bit) != 0) by (bit_vector)
        requires
            low < 64,
            bit < 64,
            word == full & (!0u64 << low),
            (word >> bit) & 1 == 1,
    ;
    assert forall|c: u64| low <= c < bit implies !#[trigger] bit_of(full, c) by {
        assert((word >> c) & 1u64 == 0u64);
        assert(full & (1u64 << c) == 0) by (bit_vector)
            requires
                low <= c,
                c < 64,
                word == full & (!0u64 << low),
                (word >> c) & 1u64 == 0u64,
        ;
    }
}

/// The largest byte of the set that is at most `max_byte`.
pub fn prev_present_byte(bitmap: &[u64; 4], max_byte: u8) -> (r: Option<u8>)
    ensures
        match r {
            Some(byte) => {
                &&& byte <= max_byte
                &&& present(bitmap@, byte)
                &&& forall|b: u8| byte < b <= max_byte ==> !#[trigger] present(bitmap@, b)
            },
            None => forall|b: u8| b <= max_byte ==> !#[trigger] present(bitmap@, b),
        },
{
    let end_word: usize = (max_byte / 64) as usize;
    let end_bit: u64 = (max_byte % 64) as u64;
    let mut rest: usize = end_word + 1;
    while rest > 0
        invariant
            end_word == max_byte / 64,
            end_bit == max_byte % 64,
            rest <= end_word + 1 <= 4,
            forall|b: u8| b <= max_byte && b / 64 >= rest ==> !#[trigger] present(bitmap@, b),
        decreases rest,
    {
        let word_idx: usize = rest - 1;
        let full: u64 = bitmap[word_idx];
        let high: u64 = if word_idx == end_word { end_bit } else { 63 };
        let word: u64 = if word_idx == end_word && end_bit < 63 {
            proof {
                assert(end_bit < 63 ==> 1u64 << (end_bit + 1) as u64 >= 1) by (bit_vector);
            }
            full & ((1u64 << (end_bit + 1)) - 1)
        } else {
            full
        };
        proof {
            assert(forall|c: u64| c < 64 ==> (#[trigger] bit_of(word, c) <==> c <= high && bit_of(
                full,
                c,
            ))) by {
                assert forall|c: u64| c < 64 implies (#[trigger] bit_of(word, c) <==> c <= high
                    && bit_of(full, c)) by {
                    if word_idx == end_word && end_bit < 63 {
                        let mask: u64 = ((1u64 << (end_bit + 1)) - 1) as u64;
                        assert((full & mask) & (1u64 << c) != 0
                            <==> (c <= end_bit && full & (1u64 << c) != 0)) by (bit_vector)
                            requires
                                c < 64,
                                end_bit < 63,
                                mask == (1u64 << (end_bit + 1) as u64) - 1,
                        ;
                    }
                }
            }
        }
        if word != 0 {
            proof {
                vstd::std_specs::bits::axiom_u64_leading_zeros(word);
            }
            let bit: u32 = 63 - word.leading_zeros();
            let byte: u8 = (word_idx * 64 + bit as usize) as u8;
            proof {
                let bit64: u64 = bit as u64;
                assert(bit_of(word, bit64)) by {
                    assert((word >> bit64) & 1 != 0 ==> word & (1u64 << bit64) != 0) by (bit_vector)
                        requires
                            bit64 < 64,
                    ;
                }
                assert forall|b: u8| byte < b <= max_byte implies !#[trigger] present(
                    bitmap@,
                    b,
                ) by {
                    let c: u64 = (b % 64) as u64;
                    if b / 64 == word_idx {
                        assert((word >> c) & 1u64 == 0u64);
                        assert((word >> c) & 1 == 0 ==> word & (1u64 << c) == 0) by (bit_vector)
                            requires
                                c < 64,
                        ;
                        assert(!bit_of(word, c));
                    }
                }
            }
            return Some(byte);
        }
        proof {
            assert forall|b: u8| b <= max_byte && b / 64 >= word_idx implies !#[trigger] present(
                bitmap@,
                b,
            ) by {
                let c: u64 = (b % 64) as u64;
                if b / 64 == word_idx {
                    assert(0u64 & (1u64 << c) == 0) by (bit_vector);
                    assert(!bit_of(word, c));
                }
            }
        }
        rest = rest - 1;
    }
    None
}

/// A byte is in the set if and only if its bit is set: the bytes take the bits of the words in
/// order, from the lowest on.
pub proof fn lemma_present_bit(bitmap: Seq<u64>, byte: u8)
    ensures
        present(bitmap, byte) <==> (bitmap[byte as int / 64] >> ((byte % 64) as u64)) & 1 == 1,
{
    let word = bitmap[(byte / 64) as int];
    let bit: u64 = (byte % 64) as u64;
    assert((word & (1u64 << bit) != 0) == ((word >> bit) & 1 == 1)) by (bit_vector)
        requires
            bit < 64,
    ;
}

} // verus!
