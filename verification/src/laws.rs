use vstd::prelude::*;

use crate::bitutil::bits_of_bytes;
use crate::bitutil::bits_value;
use crate::bitutil::byte_bits;
use crate::bitutil::bytes_of_bits;
use crate::bitutil::lemma_bytes_of_bits_of_bytes;
use crate::bitutil::lemma_u32_bits_value;
use crate::bitutil::lemma_u32_shift_bit;
use crate::bitutil::lemma_u8_shift_bit;
use crate::bitutil::lsb_seq;
use crate::bitutil::u32_bits;
use crate::codec::embed_spec;
use crate::codec::frame_spec;
use crate::codec::header_value;

verus! {

/// Every entry of a frame is a bit: 0 or 1.
pub proof fn lemma_frame_bits(p: Seq<u8>)
    ensures
        forall|i: int|
            0 <= i < frame_spec(p).len() ==> frame_spec(p)[i] == 0 || frame_spec(p)[i] == 1,
{
    let f = frame_spec(p);
    let v = (8 * p.len()) as u32;
    assert forall|i: int| 0 <= i < f.len() implies f[i] == 0 || f[i] == 1 by {
        if i < 32 {
            assert(f[i] == ((v >> ((31 - i) as u32)) & 1) as u8);
            lemma_u32_shift_bit(v, (31 - i) as u32);
        } else {
            let j = i - 32;
            assert(j / 8 < p.len()) by (nonlinear_arith)
                requires
                    0 <= j < p.len() * 8,
            ;
            assert(f[i] == byte_bits(p[j / 8])[j % 8]);
            lemma_u8_shift_bit(p[j / 8], (7 - j % 8) as u8);
        }
    }
}

/// Header correctness: the first 32 bits of a payload's frame decode,
/// read as a most-significant-first number, to exactly eight times the
/// payload's byte count.
pub proof fn lemma_header_correct(p: Seq<u8>)
    requires
        8 * p.len() <= u32::MAX,
    ensures
        bits_value(frame_spec(p).take(32)) == 8 * p.len(),
{
    let v = (8 * p.len()) as u32;
    assert(frame_spec(p).take(32) =~= u32_bits(v));
    lemma_u32_bits_value(v);
}

/// Minimal mutation: a sample touched by embedding moves by at most one
/// intensity level, stays put exactly when its parity already matches the
/// target bit, and afterwards carries that bit as its parity.
pub proof fn lemma_minimal_mutation(buffer: Seq<u8>, frame: Seq<u8>, i: int)
    requires
        0 <= i < frame.len(),
        frame.len() <= buffer.len(),
        frame[i] == 0 || frame[i] == 1,
    ensures
        -1 <= embed_spec(buffer, frame)[i] - buffer[i] <= 1,
        embed_spec(buffer, frame)[i] == buffer[i] <==> buffer[i] % 2 == frame[i],
        embed_spec(buffer, frame)[i] % 2 == frame[i],
{
}

/// Round trip: after a payload's frame is embedded into a buffer large
/// enough to hold it, the embedded buffer's header parities announce the
/// payload's bit count, that many parities follow, and regrouping them
/// into bytes returns the payload exactly.
pub proof fn lemma_round_trip(buffer: Seq<u8>, payload: Seq<u8>)
    requires
        32 + 8 * payload.len() <= buffer.len(),
        8 * payload.len() <= u32::MAX,
    ensures
        ({
            let embedded = embed_spec(buffer, frame_spec(payload));
            &&& embedded.len() == buffer.len()
            &&& header_value(embedded) == 8 * payload.len()
            &&& 32 + header_value(embedded) <= embedded.len()
            &&& bytes_of_bits(lsb_seq(embedded.subrange(32, 32 + header_value(embedded))))
                == payload
        }),
{
    let f = frame_spec(payload);
    let e = embed_spec(buffer, f);
    let v = (8 * payload.len()) as u32;
    lemma_frame_bits(payload);
    assert forall|i: int| 0 <= i < f.len() implies e[i] % 2 == f[i] by {
        lemma_minimal_mutation(buffer, f, i);
    }
    assert(lsb_seq(e.take(32)) =~= u32_bits(v));
    lemma_u32_bits_value(v);
    assert(header_value(e) == 8 * payload.len());
    assert(lsb_seq(e.subrange(32, 32 + 8 * payload.len() as int)) =~= bits_of_bytes(payload));
    lemma_bytes_of_bits_of_bytes(payload);
}

} // verus!
