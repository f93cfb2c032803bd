use vstd::prelude::*;

verus! {

/// Mathematical model of a byte as its eight bits, most significant first:
/// bit `i` is `(b >> (7 - i)) & 1`.
pub open spec fn byte_bits(b: u8) -> Seq<u8> {
    Seq::new(8, |i: int| (b >> ((7 - i) as u8)) & 1)
}

/// Mathematical model of a 32-bit value as its bits, most significant first.
pub open spec fn u32_bits(v: u32) -> Seq<u8> {
    Seq::new(32, |i: int| ((v >> ((31 - i) as u32)) & 1) as u8)
}

/// The numeric value of a bit sequence read most-significant-first.
/// An entry counts as a set bit exactly when it equals 1.
pub open spec fn bits_value(bits: Seq<u8>) -> int
    decreases bits.len(),
{
    if bits.len() == 0 {
        0
    } else {
        2 * bits_value(bits.drop_last()) + (if bits.last() == 1 { 1int } else { 0int })
    }
}

/// The sequence of least-significant bits (parities) of a byte sequence.
pub open spec fn lsb_seq(s: Seq<u8>) -> Seq<u8> {
    Seq::new(s.len(), |i: int| s[i] % 2)
}

/// A byte sequence flattened to bits, each byte most-significant-first.
pub open spec fn bits_of_bytes(s: Seq<u8>) -> Seq<u8> {
    Seq::new(s.len() * 8, |i: int| byte_bits(s[i / 8])[i % 8])
}

/// Bits regrouped into bytes: consecutive groups of eight from the front,
/// a trailing group of fewer than eight bits dropped.
pub open spec fn bytes_of_bits(bits: Seq<u8>) -> Seq<u8> {
    Seq::new(bits.len() / 8, |k: int| bits_value(bits.subrange(8 * k, 8 * k + 8)) as u8)
}

/// Powers of two, used to bound `bits_value`.
pub open spec fn two_pow(n: nat) -> int
    decreases n,
{
    if n == 0 {
        1
    } else {
        2 * two_pow((n - 1) as nat)
    }
}

pub proof fn lemma_two_pow_monotone(a: nat, b: nat)
    requires
        a <= b,
    ensures
        two_pow(a) <= two_pow(b),
        two_pow(a) >= 1,
    decreases b,
{
    if a < b {
        lemma_two_pow_monotone(a, (b - 1) as nat);
    } else if a > 0 {
        lemma_two_pow_monotone((a - 1) as nat, (b - 1) as nat);
    }
}

pub proof fn lemma_two_pow_values()
    ensures
        two_pow(7) == 128,
        two_pow(8) == 256,
        two_pow(31) == 0x8000_0000,
        two_pow(32) == 0x1_0000_0000,
{
    reveal_with_fuel(two_pow, 33);
}

/// A bit sequence of length n has a value in [0, 2^n).
pub proof fn lemma_bits_value_bound(bits: Seq<u8>)
    ensures
        0 <= bits_value(bits) < two_pow(bits.len()),
    decreases bits.len(),
{
    if bits.len() > 0 {
        lemma_bits_value_bound(bits.drop_last());
    }
}

pub proof fn lemma_u8_shift_bit(b: u8, a: u8)
    by (bit_vector)
    ensures
        (b >> a) & 1 == 0 || (b >> a) & 1 == 1,
{
}

pub proof fn lemma_u32_shift_bit(v: u32, a: u32)
    by (bit_vector)
    ensures
        (v >> a) & 1 == 0 || (v >> a) & 1 == 1,
{
}

/// Peeling one more bit off the front of a byte's shifted remainder.
proof fn lemma_u8_horner(b: u8, a: u8)
    by (bit_vector)
    requires
        a <= 6,
    ensures
        b >> a == 2 * (b >> ((a + 1) as u8)) + ((b >> a) & 1),
{
}

proof fn lemma_u32_horner(v: u32, a: u32)
    by (bit_vector)
    requires
        a <= 30,
    ensures
        v >> a == 2 * (v >> ((a + 1) as u32)) + ((v >> a) & 1),
{
}

proof fn lemma_byte_bits_prefix(b: u8, k: int)
    requires
        1 <= k <= 8,
    ensures
        bits_value(byte_bits(b).take(k)) == (b >> ((8 - k) as u8)) as int,
    decreases k,
{
    let s = byte_bits(b);
    assert(s.take(k).drop_last() =~= s.take(k - 1));
    assert(s.take(k).last() == s[k - 1]);
    assert(s[k - 1] == (b >> ((8 - k) as u8)) & 1);
    lemma_u8_shift_bit(b, (8 - k) as u8);
    let a = (8 - k) as u8;
    assert(bits_value(s.take(k)) == 2 * bits_value(s.take(k - 1)) + (
    if s[k - 1] == 1 {
        1int
    } else {
        0int
    }));
    assert((if s[k - 1] == 1 {
        1int
    } else {
        0int
    }) == ((b >> a) & 1) as int);
    if k == 1 {
        assert(s.take(0).len() == 0);
        assert((b >> 7u8) & 1 == b >> 7u8) by (bit_vector);
    } else {
        lemma_byte_bits_prefix(b, k - 1);
        assert((a + 1) as u8 == (8 - (k - 1)) as u8);
        assert(bits_value(s.take(k - 1)) == (b >> ((a + 1) as u8)) as int);
        lemma_u8_horner(b, a);
    }
}

/// Decoding the bits of a byte gives the byte back.
pub proof fn lemma_byte_bits_value(b: u8)
    ensures
        bits_value(byte_bits(b)) == b,
{
    lemma_byte_bits_prefix(b, 8);
    assert(byte_bits(b).take(8) =~= byte_bits(b));
    assert(b >> 0u8 == b) by (bit_vector);
}

proof fn lemma_u32_bits_prefix(v: u32, k: int)
    requires
        1 <= k <= 32,
    ensures
        bits_value(u32_bits(v).take(k)) == (v >> ((32 - k) as u32)) as int,
    decreases k,
{
    let s = u32_bits(v);
    assert(s.take(k).drop_last() =~= s.take(k - 1));
    assert(s.take(k).last() == s[k - 1]);
    assert(s[k - 1] == ((v >> ((32 - k) as u32)) & 1) as u8);
    lemma_u32_shift_bit(v, (32 - k) as u32);
    let a = (32 - k) as u32;
    assert(bits_value(s.take(k)) == 2 * bits_value(s.take(k - 1)) + (
    if s[k - 1] == 1 {
        1int
    } else {
        0int
    }));
    assert((if s[k - 1] == 1 {
        1int
    } else {
        0int
    }) == ((v >> a) & 1) as int);
    if k == 1 {
        assert(s.take(0).len() == 0);
        assert((v >> 31u32) & 1 == v >> 31u32) by (bit_vector);
    } else {
        lemma_u32_bits_prefix(v, k - 1);
        assert((a + 1) as u32 == (32 - (k - 1)) as u32);
        assert(bits_value(s.take(k - 1)) == (v >> ((a + 1) as u32)) as int);
        lemma_u32_horner(v, a);
    }
}

/// Decoding the bits of a 32-bit value gives the value back.
pub proof fn lemma_u32_bits_value(v: u32)
    ensures
        bits_value(u32_bits(v)) == v,
{
    lemma_u32_bits_prefix(v, 32);
    assert(u32_bits(v).take(32) =~= u32_bits(v));
    assert(v >> 0u32 == v) by (bit_vector);
}

/// The eight flattened bits that come from byte `k` are that byte's bits.
pub proof fn lemma_bits_of_bytes_chunk(s: Seq<u8>, k: int)
    requires
        0 <= k < s.len(),
    ensures
        bits_of_bytes(s).subrange(8 * k, 8 * k + 8) == byte_bits(s[k]),
{
    assert forall|i: int| 0 <= i < 8 implies bits_of_bytes(s).subrange(8 * k, 8 * k + 8)[i]
        == byte_bits(s[k])[i] by {
        assert(8 * k + i < s.len() * 8) by (nonlinear_arith)
            requires
                0 <= i < 8,
                0 <= k < s.len(),
        ;
        assert((8 * k + i) / 8 == k && (8 * k + i) % 8 == i) by (nonlinear_arith)
            requires
                0 <= i < 8,
                0 <= k,
        ;
    }
    assert(bits_of_bytes(s).subrange(8 * k, 8 * k + 8) =~= byte_bits(s[k]));
}

/// Regrouping a byte sequence's flattened bits gives the bytes back.
pub proof fn lemma_bytes_of_bits_of_bytes(p: Seq<u8>)
    ensures
        bytes_of_bits(bits_of_bytes(p)) == p,
{
    let f = bits_of_bytes(p);
    let n = p.len() as int;
    assert(n * 8 / 8 == n) by (nonlinear_arith)
        requires
            n >= 0,
    ;
    assert forall|k: int| 0 <= k < n implies bytes_of_bits(f)[k] == p[k] by {
        lemma_bits_of_bytes_chunk(p, k);
        lemma_byte_bits_value(p[k]);
        lemma_bits_value_bound(byte_bits(p[k]));
    }
    assert(bytes_of_bits(f) =~= p);
}

pub struct BitUtils {}

impl BitUtils {
    /// The bit representation of a byte, most significant bit first.
    /// For example 4 becomes [0,0,0,0,0,1,0,0].
    pub fn byte_to_bit(byte: u8) -> (r: Vec<u8>)
        ensures
            r@ == byte_bits(byte),
    {
        let mut bits: Vec<u8> = Vec::new();
        let mut i: usize = 0;
        while i < 8
            invariant
                i <= 8,
                bits@.len() == i,
                forall|j: int| 0 <= j < i ==> bits@[j] == byte_bits(byte)[j],
            decreases 8 - i,
        {
            let shift: u8 = (7 - i) as u8;
            bits.push((byte >> shift) & 1);
            i += 1;
        }
        proof {
            assert(bits@ =~= byte_bits(byte));
        }
        bits
    }

    /// The bit representation of a 32-bit value, most significant bit first.
    pub fn byte_u32_to_bit(byte: u32) -> (r: Vec<u8>)
        ensures
            r@ == u32_bits(byte),
    {
        let mut bits: Vec<u8> = Vec::new();
        let mut i: usize = 0;
        while i < 32
            invariant
                i <= 32,
                bits@.len() == i,
                forall|j: int| 0 <= j < i ==> bits@[j] == u32_bits(byte)[j],
            decreases 32 - i,
        {
            let shift: u32 = (31 - i) as u32;
            bits.push(((byte >> shift) & 1) as u8);
            i += 1;
        }
        proof {
            assert(bits@ =~= u32_bits(byte));
        }
        bits
    }

    /// The numeric value of the first eight entries of a bit sequence,
    /// most significant bit first. An entry counts as set exactly when it is 1.
    pub fn byte_to_decimal(byte: Vec<u8>) -> (r: u8)
        requires
            byte@.len() >= 8,
        ensures
            r as int == bits_value(byte@.take(8)),
    {
        let mut output: u8 = 0;
        let mut i: usize = 0;
        while i < 8
            invariant
                i <= 8,
                byte@.len() >= 8,
                output as int == bits_value(byte@.take(i as int)),
            decreases 8 - i,
        {
            proof {
                lemma_bits_value_bound(byte@.take(i as int));
                lemma_two_pow_monotone(i as nat, 7);
                lemma_two_pow_values();
                assert(byte@.take(i as int + 1).drop_last() =~= byte@.take(i as int));
            }
            let bit: u8 = if byte[i] == 1 { 1 } else { 0 };
            output = 2 * output + bit;
            i += 1;
        }
        output
    }

    /// The numeric value of a 32-entry bit sequence, most significant bit first.
    pub fn byte_u32_to_decimal(byte: Vec<u8>) -> (r: u32)
        requires
            byte@.len() == 32,
        ensures
            r as int == bits_value(byte@),
    {
        let mut output: u32 = 0;
        let mut i: usize = 0;
        while i < 32
            invariant
                i <= 32,
                byte@.len() == 32,
                output as int == bits_value(byte@.take(i as int)),
            decreases 32 - i,
        {
            proof {
                lemma_bits_value_bound(byte@.take(i as int));
                lemma_two_pow_monotone(i as nat, 31);
                lemma_two_pow_values();
                assert(byte@.take(i as int + 1).drop_last() =~= byte@.take(i as int));
            }
            let bit: u32 = if byte[i] == 1 { 1 } else { 0 };
            output = 2 * output + bit;
            i += 1;
        }
        proof {
            assert(byte@.take(32) =~= byte@);
        }
        output
    }

    /// The least-significant bit (parity) of every byte, in order.
    pub fn read_lsb(bytes: Vec<u8>) -> (r: Vec<u8>)
        ensures
            r@ == lsb_seq(bytes@),
    {
        let mut out: Vec<u8> = Vec::new();
        let mut i: usize = 0;
        while i < bytes.len()
            invariant
                i <= bytes@.len(),
                out@.len() == i,
                forall|j: int| 0 <= j < i ==> out@[j] == bytes@[j] % 2,
            decreases bytes@.len() - i,
        {
            out.push(bytes[i] % 2);
            i += 1;
        }
        proof {
            assert(out@ =~= lsb_seq(bytes@));
        }
        out
    }

    /// Groups bits into bytes, eight at a time from the front; a trailing
    /// group of fewer than eight bits is dropped.
    pub fn bits_to_bytes(bits: Vec<u8>) -> (r: Vec<u8>)
        ensures
            r@ == bytes_of_bits(bits@),
    {
        let mut output: Vec<u8> = Vec::new();
        let n: usize = bits.len() / 8;
        let mut k: usize = 0;
        while k < n
            invariant
                n == bits@.len() / 8,
                bits@.len() <= usize::MAX,
                k <= n,
                output@.len() == k,
                forall|j: int| 0 <= j < k ==> output@[j] == bytes_of_bits(bits@)[j],
            decreases n - k,
        {
            proof {
                assert(8 * (k as int) + 8 <= bits@.len()) by (nonlinear_arith)
                    requires
                        0 <= k < n,
                        n == bits@.len() / 8,
                ;
            }
            let mut chunk: Vec<u8> = Vec::new();
            let mut j: usize = 0;
            while j < 8
                invariant
                    j <= 8,
                    8 * (k as int) + 8 <= bits@.len(),
                    bits@.len() <= usize::MAX,
                    chunk@.len() == j,
                    forall|t: int| 0 <= t < j ==> chunk@[t] == bits@[8 * (k as int) + t],
                decreases 8 - j,
            {
                chunk.push(bits[8 * k + j]);
                j += 1;
            }
            let val = Self::byte_to_decimal(chunk);
            proof {
                assert(chunk@.take(8) =~= bits@.subrange(8 * (k as int), 8 * (k as int) + 8));
                lemma_bits_value_bound(bits@.subrange(8 * (k as int), 8 * (k as int) + 8));
                lemma_two_pow_values();
            }
            output.push(val);
            k += 1;
        }
        proof {
            assert(output@ =~= bytes_of_bits(bits@));
        }
        output
    }

    /// Flattens bytes into their bits, each byte most significant bit first.
    /// For example [4, 8] becomes [0,0,0,0,0,1,0,0, 0,0,0,0,1,0,0,0].
    pub fn make_bits(bytes: Vec<u8>) -> (r: Vec<u8>)
        ensures
            r@ == bits_of_bytes(bytes@),
    {
        let mut output: Vec<u8> = Vec::new();
        let mut k: usize = 0;
        while k < bytes.len()
            invariant
                k <= bytes@.len(),
                output@.len() == 8 * k,
                forall|i: int| 0 <= i < 8 * k ==> output@[i] == bits_of_bytes(bytes@)[i],
            decreases bytes@.len() - k,
        {
            let mut bb = Self::byte_to_bit(bytes[k]);
            output.append(&mut bb);
            proof {
                lemma_bits_of_bytes_chunk(bytes@, k as int);
                assert forall|i: int| 8 * (k as int) <= i < 8 * (k as int) + 8 implies output@[i]
                    == bits_of_bytes(bytes@)[i] by {
                    assert(bits_of_bytes(bytes@).subrange(8 * (k as int), 8 * (k as int) + 8)[i - 8
                        * (k as int)] == bits_of_bytes(bytes@)[i]);
                    assert(output@[i] == byte_bits(bytes@[k as int])[i - 8 * (k as int)]);
                }
            }
            k += 1;
        }
        proof {
            assert(output@ =~= bits_of_bytes(bytes@));
        }
        output
    }
}

} // verus!
