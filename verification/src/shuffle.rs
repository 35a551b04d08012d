//! The two shuffle tables of the vectorized decoder: for each 12-bit group
//! of four length codes, the byte-lane masks that spread the four byte runs
//! at the front of a 32-byte load over four 64-bit lanes.

use vstd::prelude::*;
use crate::bytes::{le_value, lemma_le_value_zero_extended};
use crate::code::width_of_code;
use crate::layout::{code_in, lemma_code_in_bound};
use crate::tables::{length_spec, GROUPS};
use crate::vector::{lane_of, merged, rotated, shuffled};

verus! {

/// The mask byte that makes a shuffle give zero.
pub const ZERO_FILL: u8 = 0x80;

/// Where in the load the byte run of lane `lane` starts: the sum of the
/// widths of the lanes before it.
pub open spec fn lane_start(group: u32, lane: int) -> int
    decreases lane,
{
    if lane <= 0 {
        0
    } else {
        lane_start(group, lane - 1) + width_of_code(code_in(group, lane - 1))
    }
}

/// The position in the load of byte `index` of lane `lane`, or -1 where the
/// value of that lane has no such byte.
pub open spec fn source(group: u32, lane: int, index: int) -> int {
    if index < width_of_code(code_in(group, lane)) {
        lane_start(group, lane) + index
    } else {
        -1
    }
}

/// Byte `i` of the first mask. It takes the bytes of lanes 0 and 1, which
/// lie in the low half of the load, and those bytes of lanes 2 and 3 that
/// lie in the high half.
pub open spec fn shuffle1_byte(group: u32, i: int) -> u8 {
    let p = source(group, i / 8, i % 8);
    if p < 0 {
        ZERO_FILL
    } else if i < 16 {
        p as u8
    } else if p >= 16 {
        (p - 16) as u8
    } else {
        ZERO_FILL
    }
}

/// Byte `i` of the second mask. Its lanes 0 and 1 take those bytes of lanes
/// 2 and 3 of the result that lie in the low half of the load; its lanes 2
/// and 3 give zero.
pub open spec fn shuffle2_byte(group: u32, i: int) -> u8 {
    let p = source(group, i / 8 + 2, i % 8);
    if i < 16 && 0 <= p < 16 {
        p as u8
    } else {
        ZERO_FILL
    }
}

/// The first mask of `group`.
pub open spec fn shuffle1_spec(group: u32) -> Seq<u8> {
    Seq::new(32, |i: int| shuffle1_byte(group, i))
}

/// The second mask of `group`.
pub open spec fn shuffle2_spec(group: u32) -> Seq<u8> {
    Seq::new(32, |i: int| shuffle2_byte(group, i))
}

/// What the two masks make of a 32-byte load: the shuffle by the first mask,
/// merged with the rotated shuffle by the second.
pub open spec fn unpacked(window: Seq<u8>, group: u32) -> Seq<u8> {
    merged(
        shuffled(window, shuffle1_spec(group)),
        rotated(shuffled(window, shuffle2_spec(group))),
    )
}

/// The value of lane `lane` of the block that starts at `pos` in `data`:
/// its byte run, zero-extended.
pub open spec fn lane_value(data: Seq<u8>, pos: int, group: u32, lane: int) -> u64 {
    le_value(data.subrange(pos + lane_start(group, lane), pos + lane_start(group, lane + 1)))
}

/// A lane starts at most eight bytes after the one before it, and the four
/// lanes together take as many bytes as the length table says.
pub proof fn lemma_lane_start(group: u32, lane: int)
    requires
        0 <= lane <= 4,
    ensures
        lane <= lane_start(group, lane) <= 8 * lane,
        lane == 4 ==> lane_start(group, lane) == length_spec(group),
    decreases lane,
{
    if lane > 0 {
        lemma_lane_start(group, lane - 1);
        lemma_code_in_bound(group, lane - 1);
    }
    if lane == 4 {
        reveal_with_fuel(lane_start, 5);
    }
}

/// Returns the first mask of `group`.
pub fn shuffle1(group: u32) -> (mask: [u8; 32])
    requires
        group < GROUPS,
    ensures
        mask@ == shuffle1_spec(group),
{
    let mut mask: [u8; 32] = [ZERO_FILL; 32];
    let mut start: usize = 0;
    let mut lane: usize = 0;
    while lane < 4
        invariant
            lane <= 4,
            start == lane_start(group, lane as int),
            forall|i: int| 0 <= i < 8 * lane ==> #[trigger] mask@[i] == shuffle1_byte(group, i),
            forall|i: int| 8 * lane <= i < 32 ==> #[trigger] mask@[i] == ZERO_FILL,
        decreases 4 - lane,
    {
        let code: u32 = (group >> (3 * lane as u32)) & 7;
        proof {
            lemma_code_in_bound(group, lane as int);
            lemma_lane_start(group, lane as int);
        }
        let width: usize = code as usize + 1;
        let mut k: usize = 0;
        while k < width
            invariant
                k <= width <= 8,
                lane < 4,
                width == width_of_code(code_in(group, lane as int)),
                start == lane_start(group, lane as int),
                start <= 8 * lane,
                forall|i: int|
                    0 <= i < 8 * lane + k ==> #[trigger] mask@[i] == shuffle1_byte(group, i),
                forall|i: int| 8 * lane + k <= i < 32 ==> #[trigger] mask@[i] == ZERO_FILL,
            decreases width - k,
        {
            let p: usize = start + k;
            proof {
                assert((8 * lane + k) / 8 == lane as int);
                assert((8 * lane + k) % 8 == k as int);
                assert(source(group, lane as int, k as int) == p);
            }
            if lane < 2 {
                mask[8 * lane + k] = p as u8;
            } else if p >= 16 {
                mask[8 * lane + k] = (p - 16) as u8;
            }
            k += 1;
        }
        proof {
            assert forall|i: int| 8 * lane + width <= i < 8 * (lane + 1) implies #[trigger] mask@[i]
                == shuffle1_byte(group, i) by {
                assert(i / 8 == lane as int);
                assert(source(group, lane as int, i % 8) == -1);
            }
        }
        start += width;
        lane += 1;
    }
    proof {
        assert(mask@ =~= shuffle1_spec(group));
    }
    mask
}

/// Returns the second mask of `group`.
pub fn shuffle2(group: u32) -> (mask: [u8; 32])
    requires
        group < GROUPS,
    ensures
        mask@ == shuffle2_spec(group),
{
    let mut mask: [u8; 32] = [ZERO_FILL; 32];
    let c0: u32 = group & 7;
    let c1: u32 = (group >> 3) & 7;
    proof {
        lemma_code_in_bound(group, 0);
        lemma_code_in_bound(group, 1);
        assert(group & 7 == (group >> 0u32) & 7) by (bit_vector);
        reveal_with_fuel(lane_start, 3);
    }
    let mut start: usize = c0 as usize + c1 as usize + 2;
    let mut lane: usize = 2;
    while lane < 4
        invariant
            2 <= lane <= 4,
            start == lane_start(group, lane as int),
            forall|i: int|
                0 <= i < 8 * (lane - 2) ==> #[trigger] mask@[i] == shuffle2_byte(group, i),
            forall|i: int| 8 * (lane - 2) <= i < 32 ==> #[trigger] mask@[i] == ZERO_FILL,
        decreases 4 - lane,
    {
        let code: u32 = (group >> (3 * lane as u32)) & 7;
        proof {
            lemma_code_in_bound(group, lane as int);
            lemma_lane_start(group, lane as int);
        }
        let width: usize = code as usize + 1;
        let base: usize = 8 * (lane - 2);
        let mut k: usize = 0;
        while k < width
            invariant
                k <= width <= 8,
                2 <= lane < 4,
                base == 8 * (lane - 2),
                width == width_of_code(code_in(group, lane as int)),
                start == lane_start(group, lane as int),
                start <= 8 * lane,
                forall|i: int| 0 <= i < base + k ==> #[trigger] mask@[i] == shuffle2_byte(group, i),
                forall|i: int| base + k <= i < 32 ==> #[trigger] mask@[i] == ZERO_FILL,
            decreases width - k,
        {
            let p: usize = start + k;
            proof {
                assert((base + k) / 8 + 2 == lane as int);
                assert((base + k) % 8 == k as int);
                assert(source(group, lane as int, k as int) == p);
            }
            if p < 16 {
                mask[base + k] = p as u8;
            }
            k += 1;
        }
        proof {
            assert forall|i: int| base + width <= i < base + 8 implies #[trigger] mask@[i]
                == shuffle2_byte(group, i) by {
                assert(i / 8 + 2 == lane as int);
                assert(source(group, lane as int, i % 8) == -1);
            }
        }
        start += width;
        lane += 1;
    }
    proof {
        assert(mask@ =~= shuffle2_spec(group));
    }
    mask
}

/// Byte by byte, the two masks put each byte of each run in its place in
/// its lane and zero above it.
pub proof fn lemma_unpacked_byte(window: Seq<u8>, group: u32, lane: int, index: int)
    requires
        window.len() == 32,
        0 <= lane < 4,
        0 <= index < 8,
    ensures
        0 <= lane_start(group, lane),
        lane_start(group, lane + 1) <= 32,
        unpacked(window, group)[8 * lane + index] == if index < width_of_code(
            code_in(group, lane),
        ) {
            window[lane_start(group, lane) + index]
        } else {
            0u8
        },
{
    let i = 8 * lane + index;
    assert(i / 8 == lane && i % 8 == index);
    lemma_lane_start(group, lane);
    lemma_lane_start(group, lane + 1);
    lemma_code_in_bound(group, lane);
    let p = source(group, lane, index);
    let first = shuffled(window, shuffle1_spec(group));
    let second = shuffled(window, shuffle2_spec(group));
    let a: u8 = first[i];
    let b: u8 = rotated(second)[i];
    assert(shuffle1_spec(group)[i] == shuffle1_byte(group, i));
    if i < 16 {
        let j = 24 + i % 8;
        assert(shuffle2_spec(group)[j] == shuffle2_byte(group, j));
        assert(b == second[j]);
        assert(b == 0);
        if p >= 0 {
            assert(p < 16);
            assert(a == window[p]);
        } else {
            assert(a == 0);
        }
    } else {
        let j = i - 16;
        assert(j / 8 + 2 == lane && j % 8 == index);
        assert(shuffle2_spec(group)[j] == shuffle2_byte(group, j));
        assert(b == second[j]);
        if p >= 16 {
            assert(a == window[p]);
            assert(b == 0);
        } else if p >= 0 {
            assert(a == 0);
            assert(b == window[p]);
        } else {
            assert(a == 0);
            assert(b == 0);
        }
    }
    assert(a | 0u8 == a && 0u8 | b == b) by (bit_vector);
    assert(unpacked(window, group)[i] == a | b);
}

/// The two masks decode a block: applied to a 32-byte load that starts with
/// the four byte runs of `group`, they give the four values, each
/// zero-extended in its lane.
pub proof fn lemma_unpacked_lane(data: Seq<u8>, pos: int, group: u32, lane: int)
    requires
        0 <= pos,
        pos + 32 <= data.len(),
        0 <= lane < 4,
    ensures
        lane_of(unpacked(data.subrange(pos, pos + 32), group), lane) == lane_value(
            data,
            pos,
            group,
            lane,
        ),
{
    let window = data.subrange(pos, pos + 32);
    let out = unpacked(window, group).subrange(8 * lane, 8 * lane + 8);
    let width = width_of_code(code_in(group, lane)) as int;
    let start = lane_start(group, lane);
    lemma_lane_start(group, lane);
    lemma_lane_start(group, lane + 1);
    lemma_code_in_bound(group, lane);
    assert(lane_start(group, lane + 1) == start + width);
    assert forall|k: int| 0 <= k < 8 implies #[trigger] out[k] == if k < width {
        window[start + k]
    } else {
        0u8
    } by {
        lemma_unpacked_byte(window, group, lane, k);
    }
    lemma_le_value_zero_extended(out, width);
    assert(out.subrange(0, width) =~= data.subrange(pos + start, pos + start + width));
}

} // verus!
