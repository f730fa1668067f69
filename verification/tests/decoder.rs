use sha2::{Digest, Sha256};
use veriform::decoder::Decoder;
use veriform::digest::{Accumulator, Sha256Accumulator};
use veriform::error::Error;
use veriform::field::SizeBounds;
use veriform::message::Element;

type Sha256Decoder<'a> = Decoder<'a, Sha256Accumulator>;

fn sha256(data: &[u8]) -> Vec<u8> {
    Sha256::digest(data).to_vec()
}

const ALL_TYPES: [u8; 33] = [
    0x03, 0x02, 0x55, // uint64 42 at tag 1
    0x05, 0x01, // true at tag 2
    0x07, 0x03, 0x03, // sint64 -1 at tag 3
    0x09, 0x04, 0x07, 1, 2, 3, // bytes at tag 4
    0x0B, 0x05, 0x05, b'h', b'i', // string at tag 5
    0x0D, 0x0E, 0x07, 0x03, 0x02, 0x55, // critical message at tag 6
    0x0F, 0x07, 0x0B, 0x06, 0x05, 0x03, 0x00, 0x01, // sequence at tag 7
];

#[test]
fn accumulator_computes_sha256() {
    let mut accumulator = Sha256Accumulator::new();
    assert_eq!(
        accumulator.finalize(),
        vec![
            0xe3, 0xb0, 0xc4, 0x42, 0x98, 0xfc, 0x1c, 0x14, 0x9a, 0xfb, 0xf4, 0xc8, 0x99, 0x6f,
            0xb9, 0x24, 0x27, 0xae, 0x41, 0xe4, 0x64, 0x9b, 0x93, 0x4c, 0xa4, 0x95, 0x99, 0x1b,
            0x78, 0x52, 0xb8, 0x55
        ]
    );
    accumulator.absorb(b"a");
    accumulator.absorb(b"bc");
    let expected = vec![
        0xba, 0x78, 0x16, 0xbf, 0x8f, 0x01, 0xcf, 0xea, 0x41, 0x41, 0x40, 0xde, 0x5d, 0xae, 0x22,
        0x23, 0xb0, 0x03, 0x61, 0xa3, 0x96, 0x17, 0x7a, 0x9c, 0xb4, 0x10, 0xff, 0x61, 0xf2, 0x00,
        0x15, 0xad,
    ];
    assert_eq!(accumulator.finalize(), expected);
    // asking for the digest does not disturb the accumulator
    assert_eq!(accumulator.finalize(), expected);
    accumulator.absorb(b"d");
    assert_eq!(accumulator.finalize(), sha256(b"abcd"));
}

#[test]
fn decoder_reads_each_wire_type() {
    let mut decoder = Sha256Decoder::new(&ALL_TYPES);
    let free = SizeBounds::unbounded();
    assert_eq!(decoder.peek_tag(), Ok(1));
    assert_eq!(decoder.decode_uint64(1), Ok(42));
    assert_eq!(decoder.peek_tag(), Ok(2));
    assert_eq!(decoder.decode_bool(2), Ok(true));
    assert_eq!(decoder.decode_sint64(3), Ok(-1));
    assert_eq!(decoder.decode_bytes(4, &free), Ok(&[1u8, 2, 3][..]));
    assert_eq!(decoder.decode_string(5, &free), Ok("hi"));
    assert_eq!(decoder.decode_message(6, &SizeBounds::unbounded()), Ok(&[0x03u8, 0x02, 0x55][..]));
    assert_eq!(decoder.check_input_consumed(), Err(Error::TrailingData));
    let elements = decoder.decode_sequence(7, &SizeBounds::unbounded()).unwrap();
    assert_eq!(elements, vec![&[0x03u8, 0x00][..], &[][..]]);
    assert_eq!(decoder.check_input_consumed(), Ok(()));
    assert_eq!(decoder.finish(), Ok(()));
    assert_eq!(
        decoder.peek_tag(),
        Err(Error::TruncatedInput { element: Element::Tag })
    );
}

#[test]
fn decoder_reads_false() {
    let mut decoder = Sha256Decoder::new(&[0x05, 0x00, 0x07, 0x09]);
    assert_eq!(decoder.decode_bool(2), Ok(false));
    assert_eq!(decoder.decode_bool(3), Ok(true));
}

#[test]
fn tag_order_rejection() {
    // tags (5, 3)
    let descending = [0x0B, 0x02, 0x03, 0x07, 0x02, 0x03];
    let mut decoder = Sha256Decoder::new(&descending);
    assert_eq!(decoder.decode_uint64(5), Ok(1));
    assert_eq!(decoder.decode_uint64(3), Err(Error::TagOutOfOrder));
    // tags (3, 3)
    let duplicate = [0x07, 0x02, 0x03, 0x07, 0x02, 0x03];
    let mut decoder = Sha256Decoder::new(&duplicate);
    assert_eq!(decoder.decode_uint64(3), Ok(1));
    assert_eq!(decoder.decode_uint64(3), Err(Error::TagOutOfOrder));
}

#[test]
fn tag_order_is_checked_on_fields_passed_over() {
    let descending = [0x0B, 0x02, 0x03, 0x07, 0x02, 0x03, 0x13, 0x02, 0x03];
    let mut decoder = Sha256Decoder::new(&descending);
    assert_eq!(decoder.decode_uint64(9), Err(Error::TagOutOfOrder));
    let mut decoder = Sha256Decoder::new(&descending);
    assert_eq!(decoder.decode_uint64(5), Ok(1));
    assert_eq!(decoder.finish(), Err(Error::TagOutOfOrder));
    let duplicate = [0x07, 0x02, 0x03, 0x07, 0x02, 0x03];
    let mut decoder = Sha256Decoder::new(&duplicate);
    assert_eq!(decoder.finish(), Err(Error::TagOutOfOrder));
}

#[test]
fn critical_field_rejection() {
    // tag 1 known, tag 2 unknown and critical, tag 3 known
    let critical = [0x03, 0x02, 0x55, 0x05, 0x0A, 0x0F, 0x07, 0x02, 0x03];
    let mut decoder = Sha256Decoder::new(&critical);
    assert_eq!(decoder.decode_uint64(1), Ok(42));
    assert_eq!(decoder.decode_uint64(3), Err(Error::UnknownCriticalField));
    // the same message with the flag cleared
    let cleared = [0x03, 0x02, 0x55, 0x05, 0x02, 0x0F, 0x07, 0x02, 0x03];
    let mut decoder = Sha256Decoder::new(&cleared);
    assert_eq!(decoder.decode_uint64(1), Ok(42));
    assert_eq!(decoder.decode_uint64(3), Ok(1));
    assert_eq!(decoder.finish(), Ok(()));
}

#[test]
fn critical_field_rejection_at_the_end() {
    let critical = [0x03, 0x02, 0x55, 0x05, 0x0C, 0x05, 1, 2];
    let mut decoder = Sha256Decoder::new(&critical);
    assert_eq!(decoder.decode_uint64(1), Ok(42));
    assert_eq!(decoder.finish(), Err(Error::UnknownCriticalField));
    let cleared = [0x03, 0x02, 0x55, 0x05, 0x04, 0x05, 1, 2];
    let mut decoder = Sha256Decoder::new(&cleared);
    assert_eq!(decoder.decode_uint64(1), Ok(42));
    assert_eq!(decoder.check_input_consumed(), Err(Error::TrailingData));
    assert_eq!(decoder.finish(), Ok(()));
    assert_eq!(decoder.check_input_consumed(), Ok(()));
}

#[test]
fn unknown_fields_of_every_wire_type_are_skipped() {
    let mut input = ALL_TYPES.to_vec();
    input[20] = 0x06; // the message at tag 6 is not critical here
    input.extend_from_slice(&[0x13, 0x02, 0x09]); // uint64 4 at tag 9
    let mut decoder = Sha256Decoder::new(&input);
    assert_eq!(decoder.decode_uint64(9), Ok(4));
    assert_eq!(decoder.fill_digest(), sha256(&input));
}

#[test]
fn missing_field_runs_into_the_end() {
    let mut decoder = Sha256Decoder::new(&[0x03, 0x02, 0x55]);
    assert_eq!(
        decoder.decode_uint64(2),
        Err(Error::TruncatedInput { element: Element::Tag })
    );
    let mut decoder = Sha256Decoder::new(&[]);
    assert_eq!(
        decoder.decode_bool(0),
        Err(Error::TruncatedInput { element: Element::Tag })
    );
}

#[test]
fn unexpected_wire_type() {
    let free = SizeBounds::unbounded();
    let mut decoder = Sha256Decoder::new(&[0x03, 0x02, 0x55]);
    assert_eq!(decoder.decode_sint64(1), Err(Error::UnexpectedWireType));
    let mut decoder = Sha256Decoder::new(&[0x03, 0x02, 0x55]);
    assert_eq!(decoder.decode_bool(1), Err(Error::UnexpectedWireType));
    let mut decoder = Sha256Decoder::new(&[0x03, 0x02, 0x55]);
    assert_eq!(decoder.decode_bytes(1, &free), Err(Error::UnexpectedWireType));
    let mut decoder = Sha256Decoder::new(&[0x09, 0x04, 0x03, 1]);
    assert_eq!(decoder.decode_string(4, &free), Err(Error::UnexpectedWireType));
    let mut decoder = Sha256Decoder::new(&[0x09, 0x04, 0x03, 1]);
    assert_eq!(decoder.decode_message(4, &free), Err(Error::UnexpectedWireType));
    let mut decoder = Sha256Decoder::new(&[0x09, 0x06, 0x03, 1]);
    assert_eq!(decoder.decode_sequence(4, &SizeBounds::unbounded()).err(), Some(Error::UnexpectedWireType));
    let mut decoder = Sha256Decoder::new(&[0x05, 0x01]);
    assert_eq!(decoder.decode_uint64(2), Err(Error::UnexpectedWireType));
}

#[test]
fn truncated_values() {
    let free = SizeBounds::unbounded();
    let mut decoder = Sha256Decoder::new(&[0x03, 0x02]);
    assert_eq!(
        decoder.decode_uint64(1),
        Err(Error::TruncatedInput { element: Element::Value })
    );
    let mut decoder = Sha256Decoder::new(&[0x03, 0x02, 0x02]);
    assert_eq!(
        decoder.decode_uint64(1),
        Err(Error::TruncatedInput { element: Element::Value })
    );
    let mut decoder = Sha256Decoder::new(&[0x09, 0x04]);
    assert_eq!(
        decoder.decode_bytes(4, &free),
        Err(Error::TruncatedInput { element: Element::LengthDelimiter })
    );
    let mut decoder = Sha256Decoder::new(&[0x09, 0x04, 0x07, 1, 2]);
    assert_eq!(
        decoder.decode_bytes(4, &free),
        Err(Error::TruncatedInput { element: Element::Value })
    );
    let mut decoder = Sha256Decoder::new(&[0x03]);
    assert_eq!(
        decoder.decode_uint64(1),
        Err(Error::TruncatedInput { element: Element::Tag })
    );
}

#[test]
fn a_declared_length_beyond_the_input_is_refused_before_anything_else() {
    let free = SizeBounds::unbounded();
    // the length says 2^63 bytes
    let input = [0x09, 0x04, 0x00, 0, 0, 0, 0, 0, 0, 0, 0x80, 1, 2, 3];
    let mut decoder = Sha256Decoder::new(&input);
    assert_eq!(
        decoder.decode_bytes(4, &free),
        Err(Error::TruncatedInput { element: Element::Value })
    );
    let mut decoder = Sha256Decoder::new(&input);
    assert_eq!(
        decoder.decode_uint64(5),
        Err(Error::TruncatedInput { element: Element::Value })
    );
}

#[test]
fn invalid_encodings() {
    let free = SizeBounds::unbounded();
    let mut decoder = Sha256Decoder::new(&[0x03, 0x02, 0x02, 0x00]);
    assert_eq!(
        decoder.decode_uint64(1),
        Err(Error::InvalidEncoding { element: Element::Value })
    );
    let mut decoder = Sha256Decoder::new(&[0x09, 0x04, 0x02, 0x00]);
    assert_eq!(
        decoder.decode_bytes(4, &free),
        Err(Error::InvalidEncoding { element: Element::LengthDelimiter })
    );
    let mut decoder = Sha256Decoder::new(&[0x0B, 0x05, 0x05, 0xC3, 0x28]);
    assert_eq!(
        decoder.decode_string(5, &free),
        Err(Error::InvalidEncoding { element: Element::Value })
    );
    let mut decoder = Sha256Decoder::new(&[0x03, 0x12, 0x55]);
    assert_eq!(
        decoder.decode_uint64(1),
        Err(Error::InvalidEncoding { element: Element::Tag })
    );
}

#[test]
fn string_with_more_than_ascii() {
    let free = SizeBounds::unbounded();
    let text = "grüße, 世界";
    let mut input = vec![0x0B, 0x05, (2 * text.len() as u8) + 1];
    input.extend_from_slice(text.as_bytes());
    let mut decoder = Sha256Decoder::new(&input);
    assert_eq!(decoder.decode_string(5, &free), Ok(text));
}

fn bytes_field_of(len: usize) -> Vec<u8> {
    let mut input = vec![0x09, 0x04, (2 * len as u8) + 1];
    input.extend(std::iter::repeat(0x5A).take(len));
    input
}

#[test]
fn bounds_enforcement() {
    let bounds = SizeBounds { size: None, min: Some(4), max: Some(8) };
    for len in [0usize, 3, 9, 20] {
        let input = bytes_field_of(len);
        let mut decoder = Sha256Decoder::new(&input);
        assert_eq!(decoder.decode_bytes(4, &bounds), Err(Error::SizeOutOfBounds));
    }
    for len in 4usize..=8 {
        let input = bytes_field_of(len);
        let mut decoder = Sha256Decoder::new(&input);
        assert_eq!(decoder.decode_bytes(4, &bounds), Ok(&input[3..]));
        assert_eq!(decoder.check_input_consumed(), Ok(()));
    }
}

#[test]
fn fixed_size_enforcement() {
    let bounds = SizeBounds { size: Some(5), min: None, max: None };
    for len in [4usize, 6] {
        let input = bytes_field_of(len);
        let mut decoder = Sha256Decoder::new(&input);
        assert_eq!(decoder.decode_bytes(4, &bounds), Err(Error::SizeOutOfBounds));
    }
    let input = bytes_field_of(5);
    let mut decoder = Sha256Decoder::new(&input);
    assert_eq!(decoder.decode_bytes(4, &bounds), Ok(&input[3..]));
}

#[test]
fn bounds_apply_to_strings_by_bytes() {
    let bounds = SizeBounds { size: None, min: None, max: Some(2) };
    let mut decoder = Sha256Decoder::new(&[0x0B, 0x05, 0x05, 0xC3, 0xA9]);
    assert_eq!(decoder.decode_string(5, &bounds), Ok("é"));
    let mut decoder = Sha256Decoder::new(&[0x0B, 0x05, 0x07, b'a', b'b', b'c']);
    assert_eq!(decoder.decode_string(5, &bounds), Err(Error::SizeOutOfBounds));
    // the size is judged before the content
    let mut decoder = Sha256Decoder::new(&[0x0B, 0x05, 0x07, 0xFF, 0xFF, 0xFF]);
    assert_eq!(decoder.decode_string(5, &bounds), Err(Error::SizeOutOfBounds));
}

#[test]
fn size_bounds_allow_what_they_permit() {
    let free = SizeBounds::unbounded();
    assert!(free.allows(0));
    assert!(free.allows(usize::MAX));
    let bounds = SizeBounds { size: Some(6), min: Some(4), max: Some(8) };
    assert!(bounds.allows(6));
    assert!(!bounds.allows(5));
    let bounds = SizeBounds { size: None, min: Some(4), max: None };
    assert!(!bounds.allows(3));
    assert!(bounds.allows(4));
    assert!(bounds.allows(1000));
}

#[test]
fn digest_is_over_the_bytes_consumed() {
    let mut decoder = Sha256Decoder::new(&ALL_TYPES);
    assert_eq!(decoder.fill_digest(), sha256(&[]));
    assert_eq!(decoder.decode_uint64(1), Ok(42));
    assert_eq!(decoder.fill_digest(), sha256(&ALL_TYPES[..3]));
    assert_eq!(decoder.decode_sint64(3), Ok(-1));
    // the boolean at tag 2 was passed over and counts
    assert_eq!(decoder.fill_digest(), sha256(&ALL_TYPES[..8]));
    assert_eq!(decoder.element_digest(), sha256(&ALL_TYPES[..8]));
    assert_eq!(decoder.decode_message(6, &SizeBounds::unbounded()), Ok(&[0x03u8, 0x02, 0x55][..]));
    assert_eq!(decoder.fill_digest(), sha256(&ALL_TYPES[..25]));
}

#[test]
fn digest_stability() {
    let old = [0x03, 0x02, 0x55, 0x07, 0x02, 0x03];
    let mut new = old.to_vec();
    new.extend_from_slice(&[0x13, 0x04, 0x05, 0xAB, 0xCD]); // unknown bytes at tag 9

    let mut on_old = Sha256Decoder::new(&old);
    assert_eq!(on_old.decode_uint64(1), Ok(42));
    assert_eq!(on_old.decode_uint64(3), Ok(1));
    let digest_of_old = on_old.fill_digest();
    assert_eq!(on_old.finish(), Ok(()));

    let mut on_new = Sha256Decoder::new(&new);
    assert_eq!(on_new.decode_uint64(1), Ok(42));
    assert_eq!(on_new.decode_uint64(3), Ok(1));
    let digest_of_new = on_new.fill_digest();
    assert_eq!(on_new.finish(), Ok(()));

    assert_eq!(digest_of_old, sha256(&old));
    assert_eq!(digest_of_new, digest_of_old);
    assert_eq!(on_new.element_digest(), digest_of_old);

    // without a digest field, the message stands for all that was passed
    let mut plain = Sha256Decoder::new(&new);
    assert_eq!(plain.decode_uint64(1), Ok(42));
    assert_eq!(plain.finish(), Ok(()));
    assert_eq!(plain.element_digest(), sha256(&new));
}

#[test]
fn sequence_counts_by_what_the_caller_folds() {
    let mut decoder = Sha256Decoder::new(&ALL_TYPES);
    assert_eq!(decoder.decode_sequence(7, &SizeBounds::unbounded()).err(), Some(Error::UnknownCriticalField));
    let mut input = ALL_TYPES;
    input[20] = 0x06; // the message at tag 6 is not critical here
    let mut decoder = Sha256Decoder::new(&input);
    let elements = decoder.decode_sequence(7, &SizeBounds::unbounded()).unwrap();
    assert_eq!(elements.len(), 2);
    // everything before the sequence's value, and nothing of the value
    assert_eq!(decoder.fill_digest(), sha256(&input[..27]));
    decoder.fold_digest(&[1, 2, 3]);
    let mut expected = input[..27].to_vec();
    expected.extend_from_slice(&[1, 2, 3]);
    assert_eq!(decoder.fill_digest(), sha256(&expected));
    assert_eq!(decoder.check_input_consumed(), Ok(()));
}

#[test]
fn sequence_errors() {
    // nothing behind the length
    let mut decoder = Sha256Decoder::new(&[0x0F, 0x07, 0x01]);
    assert_eq!(
        decoder.decode_sequence(7, &SizeBounds::unbounded()).err(),
        Some(Error::TruncatedInput { element: Element::SequenceHeader })
    );
    // elements of another wire type
    let mut decoder = Sha256Decoder::new(&[0x0F, 0x07, 0x03, 0x02]);
    assert_eq!(
        decoder.decode_sequence(7, &SizeBounds::unbounded()).err(),
        Some(Error::InvalidEncoding { element: Element::SequenceHeader })
    );
    // an element longer than the sequence
    let mut decoder = Sha256Decoder::new(&[0x0F, 0x07, 0x07, 0x06, 0x07, 1, 2]);
    assert_eq!(
        decoder.decode_sequence(7, &SizeBounds::unbounded()).err(),
        Some(Error::TruncatedInput { element: Element::Value })
    );
    // an element's length cut off
    let mut decoder = Sha256Decoder::new(&[0x0F, 0x07, 0x05, 0x06, 0x02]);
    assert_eq!(
        decoder.decode_sequence(7, &SizeBounds::unbounded()).err(),
        Some(Error::TruncatedInput { element: Element::LengthDelimiter })
    );
    // an empty sequence
    let mut decoder = Sha256Decoder::new(&[0x0F, 0x07, 0x03, 0x06]);
    assert_eq!(decoder.decode_sequence(7, &SizeBounds::unbounded()), Ok(vec![]));
}

#[test]
fn decoder_goes_on_with_a_given_accumulator() {
    let mut accumulator = Sha256Accumulator::new();
    accumulator.absorb(b"before");
    let mut decoder = Sha256Decoder::with_accumulator(&ALL_TYPES, accumulator);
    assert_eq!(decoder.fill_digest(), sha256(b"before"));
    assert_eq!(decoder.decode_uint64(1), Ok(42));
    let mut expected = b"before".to_vec();
    expected.extend_from_slice(&ALL_TYPES[..3]);
    assert_eq!(decoder.fill_digest(), sha256(&expected));
}

#[test]
fn bounds_apply_to_nested_messages() {
    let input = [0x0D, 0x06, 0x07, 0x03, 0x02, 0x55];
    for (bounds, ok) in [
        (SizeBounds { size: Some(3), min: None, max: None }, true),
        (SizeBounds { size: Some(2), min: None, max: None }, false),
        (SizeBounds { size: None, min: Some(4), max: None }, false),
        (SizeBounds { size: None, min: Some(1), max: Some(3) }, true),
        (SizeBounds { size: None, min: None, max: Some(2) }, false),
    ] {
        let mut decoder = Sha256Decoder::new(&input);
        let expected = if ok { Ok(&input[3..]) } else { Err(Error::SizeOutOfBounds) };
        assert_eq!(decoder.decode_message(6, &bounds), expected);
    }
}

#[test]
fn bounds_apply_to_what_a_sequence_holds() {
    // the code of the elements' wire type and two elements: five bytes
    let input = [0x0F, 0x07, 0x0B, 0x06, 0x05, 0x03, 0x00, 0x01];
    for (bounds, ok) in [
        (SizeBounds { size: Some(5), min: None, max: None }, true),
        (SizeBounds { size: Some(3), min: None, max: None }, false),
        (SizeBounds { size: None, min: Some(6), max: None }, false),
        (SizeBounds { size: None, min: None, max: Some(4) }, false),
        (SizeBounds { size: None, min: Some(5), max: Some(5) }, true),
    ] {
        let mut decoder = Sha256Decoder::new(&input);
        let expected = if ok {
            Ok(vec![&input[5..7], &input[8..8]])
        } else {
            Err(Error::SizeOutOfBounds)
        };
        assert_eq!(decoder.decode_sequence(7, &bounds), expected);
    }
    // the size is judged before the elements are divided
    let broken = [0x0F, 0x07, 0x05, 0x00, 0x05];
    let mut decoder = Sha256Decoder::new(&broken);
    let tight = SizeBounds { size: Some(1), min: None, max: None };
    assert_eq!(decoder.decode_sequence(7, &tight), Err(Error::SizeOutOfBounds));
}

#[test]
fn size_bounds_check_and_beyond() {
    let bounds = SizeBounds { size: None, min: Some(4), max: Some(8) };
    assert_eq!(bounds.check(4), Ok(()));
    assert_eq!(bounds.check(8), Ok(()));
    assert_eq!(bounds.check(3), Err(Error::SizeOutOfBounds));
    assert_eq!(bounds.check(9), Err(Error::SizeOutOfBounds));
    assert!(!bounds.is_free());
    assert!(!bounds.allows_beyond());
    assert!(SizeBounds::unbounded().is_free());
    assert!(SizeBounds::unbounded().allows_beyond());
    assert!(SizeBounds { size: None, min: Some(1), max: None }.allows_beyond());
    assert!(!SizeBounds { size: Some(1), min: None, max: None }.allows_beyond());
}
