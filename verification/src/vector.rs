//! A 256-bit vector as 32 bytes, and the byte-lane operations that the
//! vectorized decoder is made of.

use vstd::prelude::*;
use crate::bytes::{get_value, le_value};

verus! {

/// Bytewise shuffle within each 16-byte half: byte `i` of the result is
/// zero where the mask byte has its top bit set, and else the byte of the
/// same half of `data` that the low four bits of the mask byte select.
pub open spec fn shuffled(data: Seq<u8>, mask: Seq<u8>) -> Seq<u8> {
    Seq::new(
        32,
        |i: int|
            if mask[i] >= 0x80 {
                0u8
            } else {
                data[(i / 16) * 16 + mask[i] % 16]
            },
    )
}

/// The four 64-bit lanes rearranged: lanes 0 and 1 of the result are lane 3
/// of `v`, lanes 2 and 3 are its lanes 0 and 1.
pub open spec fn rotated(v: Seq<u8>) -> Seq<u8> {
    Seq::new(
        32,
        |i: int|
            if i < 16 {
                v[24 + i % 8]
            } else {
                v[i - 16]
            },
    )
}

/// The bitwise or of two vectors.
pub open spec fn merged(a: Seq<u8>, b: Seq<u8>) -> Seq<u8> {
    Seq::new(32, |i: int| a[i] | b[i])
}

/// Lane `lane` of a vector as a little-endian 64-bit value.
pub open spec fn lane_of(v: Seq<u8>, lane: int) -> u64 {
    le_value(v.subrange(8 * lane, 8 * lane + 8))
}

/// Loads the 32 bytes of `data` from `pos` on.
pub fn load(data: &[u8], pos: usize) -> (v: [u8; 32])
    requires
        pos + 32 <= data.len(),
    ensures
        v@ == data@.subrange(pos as int, pos + 32),
{
    let mut v: [u8; 32] = [0u8; 32];
    let mut i: usize = 0;
    while i < 32
        invariant
            i <= 32,
            pos + 32 <= data.len(),
            forall|j: int| 0 <= j < i ==> #[trigger] v@[j] == data@[pos + j],
        decreases 32 - i,
    {
        v[i] = data[pos + i];
        i += 1;
    }
    proof {
        assert(v@ =~= data@.subrange(pos as int, pos + 32));
    }
    v
}

/// Shuffles the bytes of `data` within each 16-byte half as `mask` says.
pub fn shuffle_bytes(data: &[u8; 32], mask: &[u8; 32]) -> (v: [u8; 32])
    ensures
        v@ == shuffled(data@, mask@),
{
    let mut v: [u8; 32] = [0u8; 32];
    let mut i: usize = 0;
    while i < 32
        invariant
            i <= 32,
            forall|j: int| 0 <= j < i ==> #[trigger] v@[j] == shuffled(data@, mask@)[j],
        decreases 32 - i,
    {
        let m: u8 = mask[i];
        if m < 0x80 {
            v[i] = data[(i / 16) * 16 + (m % 16) as usize];
        } else {
            v[i] = 0;
        }
        i += 1;
    }
    proof {
        assert(v@ =~= shuffled(data@, mask@));
    }
    v
}

/// Moves lane 3 to lanes 0 and 1, and lanes 0 and 1 to lanes 2 and 3.
pub fn rotate_lanes(v: &[u8; 32]) -> (r: [u8; 32])
    ensures
        r@ == rotated(v@),
{
    let mut r: [u8; 32] = [0u8; 32];
    let mut i: usize = 0;
    while i < 32
        invariant
            i <= 32,
            forall|j: int| 0 <= j < i ==> #[trigger] r@[j] == rotated(v@)[j],
        decreases 32 - i,
    {
        if i < 16 {
            r[i] = v[24 + i % 8];
        } else {
            r[i] = v[i - 16];
        }
        i += 1;
    }
    proof {
        assert(r@ =~= rotated(v@));
    }
    r
}

/// Returns the bitwise or of two vectors.
pub fn or_bytes(a: &[u8; 32], b: &[u8; 32]) -> (r: [u8; 32])
    ensures
        r@ == merged(a@, b@),
{
    let mut r: [u8; 32] = [0u8; 32];
    let mut i: usize = 0;
    while i < 32
        invariant
            i <= 32,
            forall|j: int| 0 <= j < i ==> #[trigger] r@[j] == merged(a@, b@)[j],
        decreases 32 - i,
    {
        r[i] = a[i] | b[i];
        i += 1;
    }
    proof {
        assert(r@ =~= merged(a@, b@));
    }
    r
}

/// Returns the four 64-bit lanes of a vector.
pub fn lanes(v: &[u8; 32]) -> (values: [u64; 4])
    ensures
        forall|lane: int| 0 <= lane < 4 ==> #[trigger] values@[lane] == lane_of(v@, lane),
{
    let mut values: [u64; 4] = [0u64; 4];
    let mut lane: usize = 0;
    while lane < 4
        invariant
            lane <= 4,
            forall|j: int| 0 <= j < lane ==> #[trigger] values@[j] == lane_of(v@, j),
        decreases 4 - lane,
    {
        values[lane] = get_value(v.as_slice(), 8 * lane, 7);
        lane += 1;
    }
    values
}

} // verus!
