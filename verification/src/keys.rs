//! Reading and writing the key segment, one 3-byte group at a time.

use vstd::prelude::*;
use crate::bytes::overwrite;
use crate::layout::{groups_of, keys_len_spec, lemma_word_bound, word_at, word_byte};

verus! {

/// The three bytes of a 24-bit group, least significant first.
pub open spec fn word_bytes(word: u32) -> Seq<u8> {
    seq![word_byte(word, 0), word_byte(word, 1), word_byte(word, 2)]
}

/// Returns the length of the key segment for `values` values:
/// `ceil(values / 8) * 3`.
pub fn keys_len(values: usize) -> (len: usize)
    ensures
        len == keys_len_spec(values as nat),
        len == groups_of(values as nat) * 3,
{
    if values % 8 == 0 {
        values / 8 * 3
    } else {
        values / 8 * 3 + 3
    }
}

/// Reads key group `group`: its three bytes as one 24-bit number.
pub fn get_word(keys: &[u8], group: usize) -> (word: u32)
    requires
        3 * group + 3 <= keys.len(),
    ensures
        word == word_at(keys@, group as int),
        word >> 24 == 0,
{
    let b0: u8 = keys[3 * group];
    let b1: u8 = keys[3 * group + 1];
    let b2: u8 = keys[3 * group + 2];
    let word: u32 = (b0 as u32) | ((b1 as u32) << 8) | ((b2 as u32) << 16);
    proof {
        lemma_word_bound(keys@, group as int);
    }
    word
}

/// Writes `word` as key group `group`.
pub(crate) fn put_word(keys: &mut [u8], group: usize, word: u32)
    requires
        3 * group + 3 <= old(keys).len(),
    ensures
        final(keys)@ == overwrite(old(keys)@, 3 * group, word_bytes(word)),
{
    let b0: u32 = word & 0xff;
    let b1: u32 = (word >> 8) & 0xff;
    let b2: u32 = (word >> 16) & 0xff;
    proof {
        assert(word & 0xff == (word >> 0u32) & 0xff) by (bit_vector);
        assert(word & 0xff < 0x100 && (word >> 8) & 0xff < 0x100 && (word >> 16) & 0xff < 0x100)
            by (bit_vector);
    }
    keys[3 * group] = b0 as u8;
    keys[3 * group + 1] = b1 as u8;
    keys[3 * group + 2] = b2 as u8;
    proof {
        assert(keys@ =~= overwrite(old(keys)@, 3 * group, word_bytes(word)));
    }
}

} // verus!
