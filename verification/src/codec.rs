use vstd::prelude::*;

use crate::bitutil::BitUtils;
use crate::bitutil::bits_of_bytes;
use crate::bitutil::bits_value;
use crate::bitutil::bytes_of_bits;
use crate::bitutil::lemma_bits_value_bound;
use crate::bitutil::lemma_two_pow_values;
use crate::bitutil::lsb_seq;
use crate::bitutil::u32_bits;

verus! {

/// The frame written into a carrier: a 32-bit header holding the payload's
/// bit count, most significant bit first, then the payload's bits.
pub open spec fn frame_spec(payload: Seq<u8>) -> Seq<u8> {
    u32_bits((8 * payload.len()) as u32) + bits_of_bytes(payload)
}

/// The bit count announced by a buffer's first 32 sample parities.
pub open spec fn header_value(buffer: Seq<u8>) -> int {
    bits_value(lsb_seq(buffer.take(32)))
}

/// One sample adjusted so that its parity equals the target bit, moving by
/// at most one intensity level.
pub open spec fn embedded_byte(sample: u8, bit: u8) -> u8 {
    if bit == 1 && sample % 2 == 0 {
        (sample + 1) as u8
    } else if bit == 0 && sample % 2 == 1 {
        (sample - 1) as u8
    } else {
        sample
    }
}

/// A buffer after a frame's bits are written into its sample parities.
pub open spec fn embed_spec(buffer: Seq<u8>, frame: Seq<u8>) -> Seq<u8> {
    Seq::new(
        buffer.len(),
        |i: int|
            if i < frame.len() {
                embedded_byte(buffer[i], frame[i])
            } else {
                buffer[i]
            },
    )
}

/// The frame does not fit: `required` bits against `available` samples.
#[derive(Clone, Copy, Debug, PartialEq, Eq, Structural)]
pub struct CapacityError {
    pub required: u64,
    pub available: u64,
}

/// The buffer is too short to even hold a 32-bit header.
#[derive(Clone, Copy, Debug, PartialEq, Eq, Structural)]
pub struct FormatError {}

/// Either failure that extraction can report.
#[derive(Clone, Copy, Debug, PartialEq, Eq, Structural)]
pub enum ExtractError {
    Format(FormatError),
    Capacity(CapacityError),
}

/// Builds the length-prefixed frame for a payload: a 32-bit header carrying
/// the payload's bit count, then the payload's bits.
pub fn frame(payload: Vec<u8>) -> (r: Vec<u8>)
    requires
        8 * payload@.len() <= u32::MAX,
    ensures
        r@ == frame_spec(payload@),
        r@.len() == 32 + 8 * payload@.len(),
{
    let mut message_bits = BitUtils::make_bits(payload);
    let bit_len: u32 = message_bits.len() as u32;
    let mut r = BitUtils::byte_u32_to_bit(bit_len);
    r.append(&mut message_bits);
    r
}

/// Reads the 32-bit header from the first 32 sample parities.
pub fn read_header(buffer: &Vec<u8>) -> (r: Result<u32, FormatError>)
    ensures
        (buffer@.len() >= 32) == (r is Ok),
        r is Ok ==> r->Ok_0 as int == header_value(buffer@),
{
    if buffer.len() < 32 {
        return Err(FormatError {  });
    }
    let mut bits: Vec<u8> = Vec::new();
    let mut i: usize = 0;
    while i < 32
        invariant
            i <= 32,
            buffer@.len() >= 32,
            bits@.len() == i,
            forall|j: int| 0 <= j < i ==> bits@[j] == buffer@[j] % 2,
        decreases 32 - i,
    {
        bits.push(buffer[i] % 2);
        i += 1;
    }
    proof {
        assert(bits@ =~= lsb_seq(buffer@.take(32)));
    }
    Ok(BitUtils::byte_u32_to_decimal(bits))
}

/// Reads `bit_length` payload bits from the sample parities that follow the
/// header region.
pub fn read_payload_bits(buffer: &Vec<u8>, bit_length: u32) -> (r: Result<Vec<u8>, CapacityError>)
    ensures
        (32 + bit_length as int <= buffer@.len()) == (r is Ok),
        r is Ok ==> r->Ok_0@ == lsb_seq(buffer@.subrange(32, 32 + bit_length as int)),
        r is Err ==> r->Err_0 == (CapacityError {
            required: (32 + bit_length as int) as u64,
            available: buffer@.len() as u64,
        }),
{
    if buffer.len() < 32 || bit_length as usize > buffer.len() - 32 {
        return Err(
            CapacityError { required: 32 + bit_length as u64, available: buffer.len() as u64 },
        );
    }
    let n: usize = bit_length as usize;
    let mut bits: Vec<u8> = Vec::new();
    let mut i: usize = 0;
    while i < n
        invariant
            i <= n,
            n == bit_length as int,
            32 + n as int <= buffer@.len(),
            buffer@.len() <= usize::MAX,
            bits@.len() == i,
            forall|j: int| 0 <= j < i ==> bits@[j] == buffer@[32 + j] % 2,
        decreases n - i,
    {
        bits.push(buffer[32 + i] % 2);
        i += 1;
    }
    proof {
        assert(bits@ =~= lsb_seq(buffer@.subrange(32, 32 + bit_length as int)));
    }
    Ok(bits)
}

/// Writes the frame for `payload` into the buffer's sample parities, in
/// buffer order from index 0. On success every written sample moves by at
/// most one intensity level; when the frame does not fit, the buffer is
/// left untouched and the error reports required against available bits.
/// A frame whose length equals the buffer's length exactly still fits.
#[verifier::loop_isolation(false)]
pub fn embed(buffer: &mut Vec<u8>, payload: Vec<u8>) -> (r: Result<(), CapacityError>)
    requires
        8 * payload@.len() <= u32::MAX,
    ensures
        (frame_spec(payload@).len() <= old(buffer)@.len()) == (r is Ok),
        r is Ok ==> final(buffer)@ == embed_spec(old(buffer)@, frame_spec(payload@)),
        r is Err ==> final(buffer)@ == old(buffer)@ && r->Err_0 == (CapacityError {
            required: frame_spec(payload@).len() as u64,
            available: old(buffer)@.len() as u64,
        }),
{
    let ghost p = payload@;
    let frame_bits = frame(payload);
    if frame_bits.len() > buffer.len() {
        return Err(
            CapacityError { required: frame_bits.len() as u64, available: buffer.len() as u64 },
        );
    }
    let mut i: usize = 0;
    while i < frame_bits.len()
        invariant
            i <= frame_bits@.len(),
            buffer@.len() == old(buffer)@.len(),
            frame_bits@.len() <= buffer@.len(),
            forall|j: int|
                0 <= j < i ==> buffer@[j] == embedded_byte(old(buffer)@[j], frame_bits@[j]),
            forall|j: int| i <= j < buffer@.len() ==> buffer@[j] == old(buffer)@[j],
        decreases frame_bits@.len() - i,
    {
        let bit = frame_bits[i];
        let sample = buffer[i];
        if bit == 1 && sample % 2 == 0 {
            buffer[i] = sample + 1;
        } else if bit == 0 && sample % 2 == 1 {
            buffer[i] = sample - 1;
        }
        i += 1;
    }
    proof {
        assert(buffer@ =~= embed_spec(old(buffer)@, frame_spec(p)));
    }
    Ok(())
}

/// Recovers the embedded payload: reads the header's bit count, then that
/// many payload bits, and regroups them into bytes. Reports a format error
/// on a buffer too short for a header, and a capacity error when the
/// announced bit count exceeds what the buffer holds.
pub fn extract(buffer: &Vec<u8>) -> (r: Result<Vec<u8>, ExtractError>)
    ensures
        buffer@.len() < 32 ==> r is Err && r->Err_0 == ExtractError::Format((FormatError {  })),
        buffer@.len() >= 32 && 32 + header_value(buffer@) > buffer@.len() ==> r is Err
            && r->Err_0 == ExtractError::Capacity(
            (CapacityError {
                required: (32 + header_value(buffer@)) as u64,
                available: buffer@.len() as u64,
            }),
        ),
        buffer@.len() >= 32 && 32 + header_value(buffer@) <= buffer@.len() ==> r is Ok
            && r->Ok_0@ == bytes_of_bits(
            lsb_seq(buffer@.subrange(32, 32 + header_value(buffer@))),
        ),
{
    let bit_length = match read_header(buffer) {
        Ok(v) => v,
        Err(e) => {
            return Err(ExtractError::Format(e));
        },
    };
    proof {
        lemma_bits_value_bound(lsb_seq(buffer@.take(32)));
        lemma_two_pow_values();
    }
    let payload_bits = match read_payload_bits(buffer, bit_length) {
        Ok(v) => v,
        Err(e) => {
            return Err(ExtractError::Capacity(e));
        },
    };
    Ok(BitUtils::bits_to_bytes(payload_bits))
}

} // verus!
