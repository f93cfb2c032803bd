use lsb_stego::bitutil::BitUtils;
use lsb_stego::codec::embed;
use lsb_stego::codec::extract;
use lsb_stego::codec::frame;
use lsb_stego::codec::read_header;
use lsb_stego::codec::read_payload_bits;
use lsb_stego::codec::CapacityError;
use lsb_stego::codec::ExtractError;
use lsb_stego::codec::FormatError;

#[test]
fn byte_to_bit_examples() {
    assert_eq!(BitUtils::byte_to_bit(4), vec![0, 0, 0, 0, 0, 1, 0, 0]);
    assert_eq!(BitUtils::byte_to_bit(0), vec![0; 8]);
    assert_eq!(BitUtils::byte_to_bit(255), vec![1; 8]);
    assert_eq!(BitUtils::byte_to_bit(0xB2), vec![1, 0, 1, 1, 0, 0, 1, 0]);
}

#[test]
fn byte_to_decimal_examples() {
    assert_eq!(BitUtils::byte_to_decimal(vec![1, 0, 1, 1, 0, 0, 1, 0]), 0xB2);
    assert_eq!(BitUtils::byte_to_decimal(vec![0; 8]), 0);
    assert_eq!(BitUtils::byte_to_decimal(vec![1; 8]), 255);
    for b in [0u8, 1, 2, 72, 105, 127, 128, 254, 255] {
        assert_eq!(BitUtils::byte_to_decimal(BitUtils::byte_to_bit(b)), b);
    }
}

#[test]
fn byte_u32_round_trip() {
    let bits = BitUtils::byte_u32_to_bit(16);
    assert_eq!(bits.len(), 32);
    let mut expected = vec![0u8; 32];
    expected[27] = 1;
    assert_eq!(bits, expected);
    for v in [0u32, 1, 16, 0x12345678, u32::MAX] {
        assert_eq!(BitUtils::byte_u32_to_decimal(BitUtils::byte_u32_to_bit(v)), v);
    }
}

#[test]
fn read_lsb_takes_parities() {
    assert_eq!(BitUtils::read_lsb(vec![2, 3, 4, 5, 255, 0]), vec![0, 1, 0, 1, 1, 0]);
}

#[test]
fn make_bits_flattens_in_order() {
    assert_eq!(
        BitUtils::make_bits(vec![4, 8]),
        vec![0, 0, 0, 0, 0, 1, 0, 0, 0, 0, 0, 0, 1, 0, 0, 0]
    );
    assert_eq!(BitUtils::make_bits(vec![]), Vec::<u8>::new());
}

#[test]
fn truncation_policy() {
    // A 12-bit sequence yields exactly one byte from the first 8 bits; the
    // trailing 4 bits are dropped.
    let bits = vec![1, 0, 1, 1, 0, 0, 1, 0, 1, 1, 0, 0];
    assert_eq!(BitUtils::bits_to_bytes(bits), vec![0xB2]);
    // Fewer than 8 bits: nothing survives.
    assert_eq!(BitUtils::bits_to_bytes(vec![1, 1, 1]), Vec::<u8>::new());
}

#[test]
fn frame_header_encodes_bit_count() {
    let f = frame(vec![72, 105]);
    assert_eq!(f.len(), 48);
    let header: Vec<u8> = f[..32].to_vec();
    assert_eq!(BitUtils::byte_u32_to_decimal(header), 16);
    let payload_bits: Vec<u8> = f[32..].to_vec();
    assert_eq!(payload_bits, BitUtils::make_bits(vec![72, 105]));
    // Empty payload: header announces zero bits and nothing follows.
    let f0 = frame(vec![]);
    assert_eq!(f0, vec![0u8; 32]);
}

#[test]
fn concrete_scenario() {
    // Payload "Hi" into a 64-sample all-even buffer, then back out.
    let payload = vec![72u8, 105u8];
    let mut buffer = vec![0u8; 64];
    let before = buffer.clone();
    assert!(embed(&mut buffer, payload.clone()).is_ok());
    let f = frame(payload.clone());
    for i in 0..64 {
        if i < 48 {
            assert_eq!(buffer[i] % 2, f[i]);
            assert!(buffer[i].abs_diff(before[i]) <= 1);
        } else {
            assert_eq!(buffer[i], before[i]);
        }
    }
    assert_eq!(extract(&buffer).unwrap(), payload);
}

#[test]
fn round_trip_various_payloads() {
    let cases: Vec<Vec<u8>> = vec![
        vec![],
        vec![0],
        vec![255],
        vec![72, 105],
        vec![0, 1, 2, 3, 254, 255, 128, 127],
    ];
    for payload in cases {
        // A buffer of odd samples sized exactly to the frame.
        let mut buffer = vec![7u8; 32 + 8 * payload.len()];
        assert!(embed(&mut buffer, payload.clone()).is_ok());
        assert_eq!(extract(&buffer).unwrap(), payload);
    }
}

#[test]
fn capacity_boundary() {
    // A frame whose bit length equals the buffer's length exactly succeeds.
    let payload = vec![72u8, 105u8];
    let mut exact = vec![9u8; 48];
    assert!(embed(&mut exact, payload.clone()).is_ok());
    assert_eq!(extract(&exact).unwrap(), payload);
    // One sample short: a capacity error, and the buffer is untouched.
    let mut short = vec![9u8; 47];
    let before = short.clone();
    let err = embed(&mut short, payload).unwrap_err();
    assert_eq!(err, CapacityError { required: 48, available: 47 });
    assert_eq!(short, before);
}

#[test]
fn read_header_errors_on_short_buffer() {
    assert_eq!(read_header(&vec![1u8; 31]), Err(FormatError {}));
    assert_eq!(read_header(&vec![0u8; 32]), Ok(0));
    // Parities 0...010000 in the first 32 samples announce 16 bits.
    let mut buffer = vec![0u8; 32];
    buffer[27] = 1;
    assert_eq!(read_header(&buffer), Ok(16));
}

#[test]
fn read_payload_bits_bounds() {
    let buffer = vec![3u8; 40];
    assert_eq!(read_payload_bits(&buffer, 8), Ok(vec![1u8; 8]));
    assert_eq!(
        read_payload_bits(&buffer, 9),
        Err(CapacityError { required: 41, available: 40 })
    );
    assert_eq!(
        read_payload_bits(&vec![1u8; 10], 0),
        Err(CapacityError { required: 32, available: 10 })
    );
}

#[test]
fn extract_error_variants() {
    // Too short for a header.
    assert_eq!(
        extract(&vec![1u8; 31]),
        Err(ExtractError::Format(FormatError {}))
    );
    // All-odd header announces u32::MAX bits, far beyond the buffer.
    let carrier = vec![1u8; 32];
    assert_eq!(
        extract(&carrier),
        Err(ExtractError::Capacity(CapacityError {
            required: 32 + u32::MAX as u64,
            available: 32,
        }))
    );
    // A header announcing more bits than follow, by one.
    let mut buffer = vec![0u8; 40];
    buffer[28] = 1; // eight ...
    buffer[31] = 1; // ... plus one: announces 9 bits, only 8 samples follow
    assert_eq!(
        extract(&buffer),
        Err(ExtractError::Capacity(CapacityError { required: 41, available: 40 }))
    );
    // A buffer that never carried a frame still decodes, with truncation.
    let mut odd_bits = vec![0u8; 44];
    odd_bits[28] = 1; // eight ...
    odd_bits[29] = 1; // ... plus four: announces 12 bits; 8 survive, 4 are dropped
    odd_bits[32] = 1;
    odd_bits[34] = 1;
    odd_bits[35] = 1;
    odd_bits[38] = 1;
    assert_eq!(extract(&odd_bits).unwrap(), vec![0xB2]);
}
