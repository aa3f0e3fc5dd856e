use block_requests::framing::{read_one, write_one, ReadOneError};
use block_requests::message::{
    BlockAttributes, InvalidAttributes, BODY, HEADER, JUSTIFICATION, MESSAGE_QUEUE, RECEIPT,
};
use block_requests::scale::{decode_hash, decode_number, encode_hash, encode_number, CodecError};
use block_requests::types::{BlockHash, Duration, Instant};
use block_requests::varint::{decode, encode, encoded_len};

fn encoded(value: u64) -> Vec<u8> {
    let mut buf = Vec::new();
    encode(value, &mut buf);
    buf
}

#[test]
fn varint_small_values_take_one_byte() {
    assert_eq!(encoded(0), vec![0x00]);
    assert_eq!(encoded(1), vec![0x01]);
    assert_eq!(encoded(127), vec![0x7f]);
    assert_eq!(encoded_len(127), 1);
}

#[test]
fn varint_known_encodings() {
    assert_eq!(encoded(128), vec![0x80, 0x01]);
    assert_eq!(encoded(300), vec![0xac, 0x02]);
    assert_eq!(encoded(16384), vec![0x80, 0x80, 0x01]);
    assert_eq!(
        encoded(u64::MAX),
        vec![0xff, 0xff, 0xff, 0xff, 0xff, 0xff, 0xff, 0xff, 0xff, 0x01]
    );
    assert_eq!(encoded_len(u64::MAX), 10);
    assert_eq!(encoded_len(128), 2);
}

#[test]
fn varint_appends_to_what_is_there() {
    let mut buf = vec![9u8, 9];
    encode(300, &mut buf);
    assert_eq!(buf, vec![9, 9, 0xac, 0x02]);
}

#[test]
fn varint_decode_reads_value_and_length() {
    assert_eq!(decode(&[0x00]), Some((0, 1)));
    assert_eq!(decode(&[0xac, 0x02, 0x55]), Some((300, 2)));
    assert_eq!(
        decode(&[0xff, 0xff, 0xff, 0xff, 0xff, 0xff, 0xff, 0xff, 0xff, 0x01, 0x07]),
        Some((u64::MAX, 10))
    );
}

#[test]
fn varint_decode_accepts_padded_encodings() {
    assert_eq!(decode(&[0x80, 0x00]), Some((0, 2)));
    assert_eq!(decode(&[0x81, 0x80, 0x00]), Some((1, 3)));
}

#[test]
fn varint_decode_refuses_truncated_and_overlong() {
    assert_eq!(decode(&[]), None);
    assert_eq!(decode(&[0x80]), None);
    assert_eq!(decode(&[0xff, 0xff]), None);
    // The tenth byte may only carry the top bit of the value.
    assert_eq!(
        decode(&[0xff, 0xff, 0xff, 0xff, 0xff, 0xff, 0xff, 0xff, 0xff, 0x02]),
        None
    );
    // An eleventh byte is never read.
    assert_eq!(
        decode(&[0x80, 0x80, 0x80, 0x80, 0x80, 0x80, 0x80, 0x80, 0x80, 0x80, 0x01]),
        None
    );
}

#[test]
fn varint_round_trip_on_sample_values() {
    let samples: [u64; 12] = [
        0,
        1,
        127,
        128,
        255,
        256,
        16383,
        16384,
        0xffff_ffff,
        0x1_0000_0000,
        0x7fff_ffff_ffff_ffff,
        u64::MAX,
    ];
    for value in samples {
        let bytes = encoded(value);
        assert_eq!(bytes.len(), encoded_len(value));
        assert_eq!(decode(&bytes), Some((value, bytes.len())));
    }
}

#[test]
fn varint_agrees_with_prost() {
    let samples: [u64; 8] = [0, 1, 127, 128, 300, 0xffff_ffff, 1 << 62, u64::MAX];
    for value in samples {
        let mut expected: Vec<u8> = Vec::new();
        prost::encoding::encode_varint(value, &mut expected);
        assert_eq!(encoded(value), expected);
        assert_eq!(encoded_len(value), prost::encoding::encoded_len_varint(value));
        let mut input: &[u8] = &expected;
        let decoded = prost::encoding::decode_varint(&mut input).unwrap();
        assert_eq!(decode(&expected), Some((decoded, expected.len())));
    }
    let malformed: [&[u8]; 4] = [
        &[],
        &[0x80],
        &[0xff, 0xff, 0xff, 0xff, 0xff, 0xff, 0xff, 0xff, 0xff, 0x02],
        &[0x80, 0x00],
    ];
    for bytes in malformed {
        let mut input: &[u8] = bytes;
        let theirs = prost::encoding::decode_varint(&mut input).ok();
        assert_eq!(decode(bytes).map(|found| found.0), theirs);
    }
}

#[test]
fn frame_is_length_then_payload() {
    assert_eq!(write_one(&[]), vec![0u8]);
    assert_eq!(write_one(&[7, 8, 9]), vec![3u8, 7, 8, 9]);
    let payload = vec![0x55u8; 300];
    let framed = write_one(&payload);
    assert_eq!(&framed[..2], &[0xac, 0x02]);
    assert_eq!(&framed[2..], &payload[..]);
}

#[test]
fn read_one_gives_payload_and_bytes_used() {
    let input = [3u8, 7, 8, 9, 0xee, 0xee];
    let (payload, used) = read_one(&input, 16).unwrap();
    assert_eq!(payload, &[7u8, 8, 9]);
    assert_eq!(used, 4);
    let (payload, used) = read_one(&[0u8], 16).unwrap();
    assert_eq!(payload.len(), 0);
    assert_eq!(used, 1);
}

#[test]
fn read_one_round_trip() {
    let payload = vec![1u8, 2, 3, 4, 5];
    let framed = write_one(&payload);
    let (read, used) = read_one(&framed, 5).unwrap();
    assert_eq!(read, &payload[..]);
    assert_eq!(used, framed.len());
}

#[test]
fn read_one_refuses_a_message_over_the_cap() {
    let framed = write_one(&[1u8, 2, 3, 4, 5]);
    assert_eq!(
        read_one(&framed, 4),
        Err(ReadOneError::TooLarge { requested: 5, max: 4 })
    );
    // A message of exactly the cap is waited for; one byte more is refused
    // before its payload arrives.
    assert_eq!(read_one(&[0x80, 0x80, 0x40], 1024 * 1024), Err(ReadOneError::Incomplete));
    assert_eq!(
        read_one(&[0x81, 0x80, 0x40], 1024 * 1024),
        Err(ReadOneError::TooLarge { requested: (1 << 20) + 1, max: 1024 * 1024 })
    );
}

#[test]
fn read_one_tells_incomplete_from_invalid() {
    assert_eq!(read_one(&[], 16), Err(ReadOneError::Incomplete));
    assert_eq!(read_one(&[0x80], 16), Err(ReadOneError::Incomplete));
    assert_eq!(read_one(&[3u8, 7, 8], 16), Err(ReadOneError::Incomplete));
    assert_eq!(
        read_one(&[0x80, 0x80, 0x80, 0x80, 0x80, 0x80, 0x80, 0x80, 0x80, 0x80], 16),
        Err(ReadOneError::InvalidLength)
    );
    assert_eq!(
        read_one(&[0xff, 0xff, 0xff, 0xff, 0xff, 0xff, 0xff, 0xff, 0xff, 0x02], 16),
        Err(ReadOneError::InvalidLength)
    );
}

#[test]
fn number_is_eight_bytes_least_significant_first() {
    assert_eq!(encode_number(1), vec![1u8, 0, 0, 0, 0, 0, 0, 0]);
    assert_eq!(
        encode_number(0x0102_0304_0506_0708),
        vec![8u8, 7, 6, 5, 4, 3, 2, 1]
    );
    assert_eq!(decode_number(&[8u8, 7, 6, 5, 4, 3, 2, 1]), Ok(0x0102_0304_0506_0708));
    // What follows the number is left unread.
    assert_eq!(decode_number(&[10u8, 0, 0, 0, 0, 0, 0, 0, 0xff]), Ok(10));
}

#[test]
fn number_needs_eight_bytes() {
    assert_eq!(
        decode_number(&[1u8, 2, 3]),
        Err(CodecError::NotEnoughData { needed: 8, found: 3 })
    );
    assert_eq!(
        decode_number(&[]),
        Err(CodecError::NotEnoughData { needed: 8, found: 0 })
    );
}

#[test]
fn hash_is_its_bytes() {
    let mut bytes = [0u8; 32];
    for (i, byte) in bytes.iter_mut().enumerate() {
        *byte = i as u8 + 1;
    }
    let hash = BlockHash::new(bytes);
    assert_eq!(encode_hash(&hash), bytes.to_vec());
    assert_eq!(decode_hash(&bytes), Ok(hash));
    let mut longer = bytes.to_vec();
    longer.push(0xff);
    assert_eq!(decode_hash(&longer), Ok(hash));
    assert_eq!(
        decode_hash(&bytes[..31]),
        Err(CodecError::NotEnoughData { needed: 32, found: 31 })
    );
}

#[test]
fn hash_same_compares_all_bytes() {
    let a = BlockHash::new([1u8; 32]);
    let mut other = [1u8; 32];
    other[31] = 2;
    let b = BlockHash::new(other);
    assert!(a.same(&a));
    assert!(!a.same(&b));
}

#[test]
fn attributes_sit_in_the_most_significant_byte() {
    assert_eq!(BlockAttributes::from_bits(HEADER).unwrap().to_be_u32(), 0x0100_0000);
    assert_eq!(BlockAttributes::from_bits(BODY).unwrap().to_be_u32(), 0x0200_0000);
    assert_eq!(BlockAttributes::from_bits(RECEIPT).unwrap().to_be_u32(), 0x0400_0000);
    assert_eq!(BlockAttributes::from_bits(MESSAGE_QUEUE).unwrap().to_be_u32(), 0x0800_0000);
    assert_eq!(BlockAttributes::from_bits(JUSTIFICATION).unwrap().to_be_u32(), 0x1000_0000);
    assert_eq!(
        BlockAttributes::from_bits(HEADER | JUSTIFICATION).unwrap().to_be_u32(),
        0x1100_0000
    );
    assert_eq!(BlockAttributes::empty().to_be_u32(), 0);
}

#[test]
fn attributes_round_trip_for_every_set() {
    for bits in 0u8..32 {
        let attributes = BlockAttributes::from_bits(bits).unwrap();
        assert_eq!(attributes.bits(), bits);
        assert_eq!(BlockAttributes::from_be_u32(attributes.to_be_u32()), Ok(attributes));
    }
}

#[test]
fn attributes_refuse_unused_bits() {
    assert_eq!(BlockAttributes::from_bits(0x20), None);
    assert_eq!(BlockAttributes::from_bits(0xff), None);
    assert_eq!(
        BlockAttributes::from_be_u32(0x2000_0000),
        Err(InvalidAttributes { encoded: 0x2000_0000 })
    );
    assert_eq!(
        BlockAttributes::from_be_u32(0x0100_0001),
        Err(InvalidAttributes { encoded: 0x0100_0001 })
    );
    assert_eq!(BlockAttributes::from_be_u32(1), Err(InvalidAttributes { encoded: 1 }));
}

#[test]
fn attributes_contains_checks_every_flag_asked() {
    let attributes = BlockAttributes::from_bits(HEADER | BODY).unwrap();
    assert!(attributes.contains(HEADER));
    assert!(attributes.contains(BODY));
    assert!(attributes.contains(HEADER | BODY));
    assert!(!attributes.contains(JUSTIFICATION));
    assert!(!attributes.contains(HEADER | JUSTIFICATION));
}

#[test]
fn time_arithmetic_saturates() {
    let start = Instant::from_millis(1_000);
    assert_eq!(start.elapsed(Instant::from_millis(1_250)), Duration::from_millis(250));
    assert_eq!(start.elapsed(Instant::from_millis(900)), Duration::from_millis(0));
    assert_eq!(start.plus(Duration::from_secs(40)), Instant::from_millis(41_000));
    assert_eq!(
        Instant::from_millis(u64::MAX - 1).plus(Duration::from_millis(5)),
        Instant::from_millis(u64::MAX)
    );
    assert_eq!(Duration::from_secs(15), Duration::from_millis(15_000));
    assert_eq!(Duration::from_secs(u64::MAX), Duration::from_millis(u64::MAX));
    assert!(Instant::from_millis(5).reached(Instant::from_millis(5)));
    assert!(!Instant::from_millis(5).reached(Instant::from_millis(4)));
}
