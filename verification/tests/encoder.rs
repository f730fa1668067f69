use veriform::encoder::Encoder;
use veriform::error::Error;
use veriform::length;

#[test]
fn encoder_writes_each_wire_type() {
    let mut buffer = [0u8; 64];
    let mut encoder = Encoder::new(&mut buffer);
    encoder.uint64(1, false, 42).unwrap();
    encoder.bool(2, false, true).unwrap();
    encoder.sint64(3, false, -1).unwrap();
    encoder.bytes(4, false, &[1, 2, 3]).unwrap();
    encoder.string(5, false, "hi").unwrap();
    encoder.message(6, true, &[0x03, 0x02, 0x55]).unwrap();
    encoder.sequence(7, false, &[vec![0x03, 0x00], vec![]]).unwrap();
    let written = encoder.finish();
    let expected: Vec<u8> = vec![
        0x03, 0x02, 0x55, // uint64 42 at tag 1
        0x05, 0x01, // true at tag 2
        0x07, 0x03, 0x03, // sint64 -1 at tag 3
        0x09, 0x04, 0x07, 1, 2, 3, // bytes at tag 4
        0x0B, 0x05, 0x05, b'h', b'i', // string at tag 5
        0x0D, 0x0E, 0x07, 0x03, 0x02, 0x55, // critical message at tag 6
        0x0F, 0x07, 0x0B, 0x06, 0x05, 0x03, 0x00, 0x01, // sequence at tag 7
    ];
    assert_eq!(written, expected.as_slice());
}

#[test]
fn encoder_false_and_critical_bool() {
    let mut buffer = [0u8; 8];
    let mut encoder = Encoder::new(&mut buffer);
    encoder.bool(0, false, false).unwrap();
    encoder.bool(1, true, false).unwrap();
    encoder.bool(2, true, true).unwrap();
    assert_eq!(encoder.finish(), &[0x01, 0x00, 0x03, 0x08, 0x05, 0x09]);
}

#[test]
fn encoder_refuses_tags_that_do_not_ascend() {
    let mut buffer = [0u8; 32];
    let mut encoder = Encoder::new(&mut buffer);
    encoder.uint64(5, false, 1).unwrap();
    assert_eq!(encoder.uint64(3, false, 1), Err(Error::TagOutOfOrder));
    assert_eq!(encoder.uint64(5, false, 1), Err(Error::TagOutOfOrder));
    assert_eq!(encoder.bool(5, false, true), Err(Error::TagOutOfOrder));
    assert_eq!(encoder.bytes(4, false, &[1]), Err(Error::TagOutOfOrder));
    assert_eq!(encoder.sequence(0, false, &[]), Err(Error::TagOutOfOrder));
    encoder.uint64(6, false, 2).unwrap();
    assert_eq!(encoder.finish(), &[0x0B, 0x02, 0x03, 0x0D, 0x02, 0x05]);
}

#[test]
fn encoder_refuses_what_does_not_fit_and_writes_nothing() {
    let mut buffer = [0xEEu8; 5];
    {
        let mut encoder = Encoder::new(&mut buffer);
        encoder.uint64(1, false, 42).unwrap();
        assert_eq!(encoder.bytes(2, false, &[1, 2, 3]), Err(Error::BufferTooSmall));
        assert_eq!(encoder.string(2, false, "abc"), Err(Error::BufferTooSmall));
        assert_eq!(encoder.uint64(2, false, 128), Err(Error::BufferTooSmall));
        assert_eq!(encoder.sequence(2, false, &[vec![1]]), Err(Error::BufferTooSmall));
        assert_eq!(encoder.finish(), &[0x03, 0x02, 0x55]);
    }
    assert_eq!(buffer, [0x03, 0x02, 0x55, 0xEE, 0xEE]);
}

#[test]
fn encoder_order_is_checked_before_room() {
    let mut buffer = [0u8; 3];
    let mut encoder = Encoder::new(&mut buffer);
    encoder.uint64(9, false, 0).unwrap();
    assert_eq!(encoder.bytes(1, false, &[0; 100]), Err(Error::TagOutOfOrder));
    assert_eq!(encoder.bytes(10, false, &[0; 100]), Err(Error::BufferTooSmall));
}

#[test]
fn encoder_fills_buffer_exactly() {
    let mut buffer = [0u8; 3];
    let mut encoder = Encoder::new(&mut buffer);
    encoder.uint64(1, false, 42).unwrap();
    assert_eq!(encoder.bool(2, false, true), Err(Error::BufferTooSmall));
    assert_eq!(encoder.finish().len(), 3);
}

#[test]
fn empty_encoder_finishes_empty() {
    let mut buffer = [0u8; 3];
    let encoder = Encoder::new(&mut buffer);
    assert!(encoder.finish().is_empty());
    let mut nothing: [u8; 0] = [];
    let mut encoder = Encoder::new(&mut nothing);
    assert_eq!(encoder.bool(1, false, true), Err(Error::BufferTooSmall));
    assert!(encoder.finish().is_empty());
}

#[test]
fn lengths_are_exact() {
    assert_eq!(length::uint64(1, 42), 3);
    assert_eq!(length::uint64(300, 300), 5);
    assert_eq!(length::uint64(u64::MAX, u64::MAX), 19);
    assert_eq!(length::bool(1, true), 2);
    assert_eq!(length::bool(1, false), 2);
    assert_eq!(length::sint64(3, -1), 3);
    assert_eq!(length::sint64(3, -65), 4);
    assert_eq!(length::bytes(4, &[1, 2, 3]), 6);
    assert_eq!(length::bytes(4, &[]), 3);
    assert_eq!(length::bytes(4, &[0; 128]), 2 + 2 + 128);
    assert_eq!(length::string(5, "hi"), 5);
    assert_eq!(length::string(5, "é"), 5);
    assert_eq!(length::delimited_field(6, 3), 6);
    assert_eq!(length::sequence(7, &[vec![0x03, 0x00], vec![]]), 8);
    assert_eq!(length::sequence(7, &[]), 4);
}

#[test]
fn lengths_match_what_the_encoder_writes() {
    let values: [u64; 6] = [0, 127, 128, 1 << 28, 1 << 56, u64::MAX];
    for tag in values {
        for value in values {
            let mut buffer = [0u8; 32];
            let mut encoder = Encoder::new(&mut buffer);
            encoder.uint64(tag, true, value).unwrap();
            assert_eq!(encoder.finish().len(), length::uint64(tag, value));
            let mut encoder = Encoder::new(&mut buffer);
            encoder.sint64(tag, false, value as i64).unwrap();
            assert_eq!(encoder.finish().len(), length::sint64(tag, value as i64));
        }
        let payload = vec![7u8; 200];
        let mut buffer = [0u8; 256];
        let mut encoder = Encoder::new(&mut buffer);
        encoder.bytes(tag, false, &payload).unwrap();
        assert_eq!(encoder.finish().len(), length::bytes(tag, &payload));
        let elements = vec![payload.clone(), vec![], vec![1]];
        let mut buffer = [0u8; 256];
        let mut encoder = Encoder::new(&mut buffer);
        encoder.sequence(tag, false, &elements).unwrap();
        assert_eq!(encoder.finish().len(), length::sequence(tag, &elements));
    }
}
