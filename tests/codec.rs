use varint::{decode, encode, VarintError};

fn enc(v: u64) -> Vec<u8> {
    let (bytes, len) = encode(v);
    assert_eq!(len, bytes.len());
    bytes
}

#[test]
fn encode_zero() {
    assert_eq!(encode(0), (vec![0x00], 1));
}

#[test]
fn encode_127() {
    assert_eq!(encode(127), (vec![0x7F], 1));
}

#[test]
fn encode_128() {
    assert_eq!(encode(128), (vec![0x80, 0x01], 2));
}

#[test]
fn encode_table_values() {
    assert_eq!(enc(1), vec![0x01]);
    assert_eq!(enc(300), vec![0xAC, 0x02]);
    assert_eq!(enc(16384), vec![0x80, 0x80, 0x01]);
    assert_eq!(
        enc(u64::MAX),
        vec![0xFF, 0xFF, 0xFF, 0xFF, 0xFF, 0xFF, 0xFF, 0xFF, 0xFF, 0x01]
    );
}

#[test]
fn decode_with_residual() {
    assert_eq!(decode(&[0x80, 0x01, 0xFF]), Ok((128, vec![0xFF])));
}

#[test]
fn decode_truncated_single_byte() {
    assert_eq!(decode(&[0x80]), Err(VarintError::Truncated));
}

#[test]
fn decode_overlong_eleven_bytes() {
    assert_eq!(decode(&[0xFF; 11]), Err(VarintError::Overlong));
}

#[test]
fn decode_empty_is_truncated() {
    assert_eq!(decode(&[]), Err(VarintError::Truncated));
}

#[test]
fn decode_nine_continued_bytes_is_truncated() {
    assert_eq!(decode(&[0x80; 9]), Err(VarintError::Truncated));
}

#[test]
fn decode_ten_continued_bytes_is_overlong() {
    assert_eq!(decode(&[0x80; 10]), Err(VarintError::Overlong));
}

#[test]
fn decode_tenth_group_excess_bits_dropped() {
    let mut bytes = vec![0x80; 9];
    bytes.push(0x02);
    assert_eq!(decode(&bytes), Ok((0, vec![])));
    let mut bytes = vec![0xFF; 9];
    bytes.push(0x7F);
    assert_eq!(decode(&bytes), Ok((u64::MAX, vec![])));
}

#[test]
fn decode_non_minimal_accepted() {
    assert_eq!(decode(&[0x80, 0x00]), Ok((0, vec![])));
}

#[test]
fn round_trip_boundaries() {
    let values = [
        0u64,
        1,
        127,
        128,
        300,
        16383,
        16384,
        (1u64 << 35) - 1,
        1u64 << 35,
        (1u64 << 63) - 1,
        1u64 << 63,
        u64::MAX,
    ];
    for v in values {
        assert_eq!(decode(&enc(v)), Ok((v, vec![])));
    }
}

#[test]
fn canonical_length() {
    for shift in 0..64u32 {
        let v = 1u64 << shift;
        let bits = shift as usize + 1;
        let bytes = enc(v);
        assert_eq!(bytes.len(), (bits + 6) / 7);
        assert_ne!(*bytes.last().unwrap(), 0);
    }
    assert_eq!(enc(0).len(), 1);
    assert_eq!(enc(u64::MAX).len(), 10);
}

#[test]
fn residual_preserved() {
    let suffix = vec![0x00, 0xFF, 0x80, 0x7F];
    for v in [0u64, 127, 128, 300, u64::MAX] {
        let mut bytes = enc(v);
        bytes.extend_from_slice(&suffix);
        assert_eq!(decode(&bytes), Ok((v, suffix.clone())));
    }
}

#[test]
fn concatenated_varints_decode_in_sequence() {
    let mut bytes = enc(300);
    bytes.extend(enc(u64::MAX));
    bytes.extend(enc(0));
    let (a, rest) = decode(&bytes).unwrap();
    let (b, rest) = decode(&rest).unwrap();
    let (c, rest) = decode(&rest).unwrap();
    assert_eq!((a, b, c), (300, u64::MAX, 0));
    assert!(rest.is_empty());
}

#[test]
fn truncated_prefixes_fail() {
    for v in [128u64, 16384, u64::MAX] {
        let bytes = enc(v);
        for k in 1..bytes.len() {
            assert_eq!(decode(&bytes[..k]), Err(VarintError::Truncated));
        }
    }
}

#[test]
fn long_continued_runs_are_overlong() {
    for n in 11..20 {
        assert_eq!(decode(&vec![0x80; n]), Err(VarintError::Overlong));
    }
}
