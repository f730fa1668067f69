use veriform::error::Error;
use veriform::header::Header;
use veriform::message::Element;
use veriform::vint64;
use veriform::zigzag;

fn encoded(value: u64) -> Vec<u8> {
    let mut buffer = vec![0xAAu8; 12];
    let len = vint64::encode(value, &mut buffer, 0).unwrap();
    assert_eq!(buffer[len], 0xAA);
    buffer.truncate(len);
    buffer
}

#[test]
fn vint_small_values_take_one_byte() {
    assert_eq!(encoded(0), vec![0x01]);
    assert_eq!(encoded(1), vec![0x03]);
    assert_eq!(encoded(42), vec![0x55]);
    assert_eq!(encoded(127), vec![0xFF]);
}

#[test]
fn vint_two_bytes() {
    assert_eq!(encoded(128), vec![0x02, 0x02]);
    assert_eq!(encoded(300), vec![0xB2, 0x04]);
    assert_eq!(encoded(16383), vec![0xFE, 0xFF]);
}

#[test]
fn vint_length_boundaries() {
    let bounds: [(u64, usize); 9] = [
        (0, 1),
        (1 << 7, 2),
        (1 << 14, 3),
        (1 << 21, 4),
        (1 << 28, 5),
        (1 << 35, 6),
        (1 << 42, 7),
        (1 << 49, 8),
        (1 << 56, 9),
    ];
    for (value, len) in bounds {
        assert_eq!(vint64::encoded_len(value), len);
        assert_eq!(encoded(value).len(), len);
        if value > 0 {
            assert_eq!(vint64::encoded_len(value - 1), len - 1);
        }
    }
    assert_eq!(vint64::encoded_len(u64::MAX), 9);
}

#[test]
fn vint_nine_bytes() {
    assert_eq!(encoded(1 << 56), vec![0, 0, 0, 0, 0, 0, 0, 0, 1]);
    assert_eq!(encoded(u64::MAX), vec![0, 0xFF, 0xFF, 0xFF, 0xFF, 0xFF, 0xFF, 0xFF, 0xFF]);
}

#[test]
fn vint_three_bytes_exact() {
    // (2 * 16384 + 1) * 4 = 131076 = 0x020004
    assert_eq!(encoded(16384), vec![0x04, 0x00, 0x02]);
}

#[test]
fn vint_round_trip() {
    let values: [u64; 14] = [
        0,
        1,
        127,
        128,
        255,
        16383,
        16384,
        0xFFFF_FFFF,
        (1 << 35) - 1,
        1 << 35,
        (1 << 56) - 1,
        1 << 56,
        u64::MAX - 1,
        u64::MAX,
    ];
    for value in values {
        let bytes = encoded(value);
        assert_eq!(vint64::decode(&bytes, Element::Value), Ok((value, bytes.len())));
        let mut longer = bytes.clone();
        longer.push(0x77);
        assert_eq!(vint64::decode(&longer, Element::Value), Ok((value, bytes.len())));
    }
}

#[test]
fn vint_decode_truncated() {
    assert_eq!(
        vint64::decode(&[], Element::Tag),
        Err(Error::TruncatedInput { element: Element::Tag })
    );
    assert_eq!(
        vint64::decode(&[0x02], Element::LengthDelimiter),
        Err(Error::TruncatedInput { element: Element::LengthDelimiter })
    );
    assert_eq!(
        vint64::decode(&[0x00, 1, 2, 3, 4, 5, 6, 7], Element::Value),
        Err(Error::TruncatedInput { element: Element::Value })
    );
}

#[test]
fn vint_decode_rejects_longer_than_needed() {
    // zero in two bytes
    assert_eq!(
        vint64::decode(&[0x02, 0x00], Element::Value),
        Err(Error::InvalidEncoding { element: Element::Value })
    );
    // 127 in two bytes: (2 * 127 + 1) * 2 = 510 = 0x01FE
    assert_eq!(
        vint64::decode(&[0xFE, 0x01], Element::Value),
        Err(Error::InvalidEncoding { element: Element::Value })
    );
    // a value below 2^56 in nine bytes
    assert_eq!(
        vint64::decode(&[0, 1, 0, 0, 0, 0, 0, 0, 0], Element::Tag),
        Err(Error::InvalidEncoding { element: Element::Tag })
    );
}

#[test]
fn vint_encode_refuses_where_it_does_not_fit() {
    let mut buffer = [0x11u8; 2];
    assert_eq!(vint64::encode(1 << 14, &mut buffer, 0), Err(Error::BufferTooSmall));
    assert_eq!(buffer, [0x11, 0x11]);
    assert_eq!(vint64::encode(1, &mut buffer, 2), Err(Error::BufferTooSmall));
    assert_eq!(vint64::encode(1, &mut buffer, 3), Err(Error::BufferTooSmall));
    assert_eq!(vint64::encode(128, &mut buffer, 1), Err(Error::BufferTooSmall));
    assert_eq!(buffer, [0x11, 0x11]);
    assert_eq!(vint64::encode(1, &mut buffer, 1), Ok(1));
    assert_eq!(buffer, [0x11, 0x03]);
}

#[test]
fn vint_encode_writes_in_place() {
    let mut buffer = [9u8; 6];
    assert_eq!(vint64::encode(300, &mut buffer, 2), Ok(2));
    assert_eq!(buffer, [9, 9, 0xB2, 0x04, 9, 9]);
}

#[test]
fn zigzag_exact_values() {
    assert_eq!(zigzag::encode(0), 0);
    assert_eq!(zigzag::encode(-1), 1);
    assert_eq!(zigzag::encode(1), 2);
    assert_eq!(zigzag::encode(-2), 3);
    assert_eq!(zigzag::encode(2), 4);
    assert_eq!(zigzag::encode(i64::MAX), u64::MAX - 1);
    assert_eq!(zigzag::encode(i64::MIN), u64::MAX);
}

#[test]
fn zigzag_round_trip() {
    for value in [0i64, 1, -1, 63, -64, 64, -65, i64::MAX, i64::MIN, i64::MIN + 1] {
        assert_eq!(zigzag::decode(zigzag::encode(value)), value);
    }
    for code in [0u64, 1, 2, 3, 255, u64::MAX, u64::MAX - 1] {
        assert_eq!(zigzag::encode(zigzag::decode(code)), code);
    }
}

#[test]
fn header_exact_bytes() {
    let mut buffer = [0u8; 4];
    let header = Header { tag: 1, code: 2, critical: false };
    assert_eq!(header.encode(&mut buffer, 0), Ok(2));
    assert_eq!(buffer, [0x03, 0x02, 0, 0]);
    let header = Header { tag: 1, code: 2, critical: true };
    assert_eq!(header.encode(&mut buffer, 1), Ok(2));
    assert_eq!(buffer, [0x03, 0x03, 0x0A, 0]);
    let header = Header { tag: 300, code: 7, critical: true };
    assert_eq!(header.encode(&mut buffer, 0), Ok(3));
    assert_eq!(buffer, [0xB2, 0x04, 0x0F, 0]);
    assert_eq!(header.encode(&mut buffer, 2), Err(Error::BufferTooSmall));
    assert_eq!(buffer, [0xB2, 0x04, 0x0F, 0]);
}

#[test]
fn header_round_trip() {
    for tag in [0u64, 1, 127, 128, 1 << 56, u64::MAX] {
        for code in 0u8..8 {
            for critical in [false, true] {
                let header = Header { tag, code, critical };
                let mut buffer = [0u8; 10];
                let len = header.encode(&mut buffer, 0).unwrap();
                assert_eq!(len, Header::encoded_len(tag));
                assert_eq!(Header::decode(&buffer[..len]), Ok((header, len)));
                assert_eq!(Header::decode(&buffer), Ok((header, len)));
            }
        }
    }
}

#[test]
fn header_decode_errors() {
    assert_eq!(Header::decode(&[]), Err(Error::TruncatedInput { element: Element::Tag }));
    assert_eq!(Header::decode(&[0x03]), Err(Error::TruncatedInput { element: Element::Tag }));
    assert_eq!(
        Header::decode(&[0x03, 0x10]),
        Err(Error::InvalidEncoding { element: Element::Tag })
    );
    assert_eq!(
        Header::decode(&[0x02, 0x00, 0x02]),
        Err(Error::InvalidEncoding { element: Element::Tag })
    );
}
