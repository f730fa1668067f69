use sha2::{Digest, Sha256};
use veriform::codec::{
    check_values, decode_fields, is_ascending, is_distinct, DeriveEnum, DeriveStruct,
};
use veriform::decoder::Decoder;
use veriform::digest::Sha256Accumulator;
use veriform::encoder::Encoder;
use veriform::error::Error;
use veriform::field::{Attrs, SizeBounds, WireType};
use veriform::message::Element;
use veriform::value::{decode_field, encode_field, encoded_len_for_field, hash_of, Value};

fn sha256(data: &[u8]) -> Vec<u8> {
    Sha256::digest(data).to_vec()
}

fn attrs(tag: u64, wire_type: &str) -> Attrs {
    Attrs::new(tag, wire_type, false, None, None, None).unwrap()
}

fn all_types() -> Vec<Attrs> {
    vec![
        attrs(1, "uint64"),
        attrs(2, "bool"),
        attrs(3, "sint64"),
        attrs(4, "bytes"),
        attrs(5, "string"),
        Attrs::new(6, "message", true, None, None, None).unwrap(),
        attrs(7, "sequence"),
    ]
}

fn all_values() -> Vec<Value> {
    vec![
        Value::UInt64(42),
        Value::Bool(true),
        Value::SInt64(-1),
        Value::Bytes(vec![1, 2, 3]),
        Value::String("hi".to_owned()),
        Value::Message(vec![0x03, 0x02, 0x55]),
        Value::Sequence(vec![vec![0x03, 0x00], vec![]]),
    ]
}

const ALL_TYPES: [u8; 33] = [
    0x03, 0x02, 0x55, // uint64 42 at tag 1
    0x05, 0x01, // true at tag 2
    0x07, 0x03, 0x03, // sint64 -1 at tag 3
    0x09, 0x04, 0x07, 1, 2, 3, // bytes at tag 4
    0x0B, 0x05, 0x05, b'h', b'i', // string at tag 5
    0x0D, 0x0E, 0x07, 0x03, 0x02, 0x55, // critical message at tag 6
    0x0F, 0x07, 0x0B, 0x06, 0x05, 0x03, 0x00, 0x01, // sequence at tag 7
];

#[test]
fn attrs_hold_what_the_definition_states() {
    let attrs = Attrs::new(9, "bytes", true, Some(6), Some(4), Some(8)).unwrap();
    assert_eq!(attrs.tag(), 9);
    assert_eq!(attrs.wire_type(), WireType::Bytes);
    assert!(attrs.is_critical());
    assert_eq!(attrs.bounds(), SizeBounds { size: Some(6), min: Some(4), max: Some(8) });
    let attrs = Attrs::new(0, "sequence", false, None, None, None).unwrap();
    assert_eq!(attrs.tag(), 0);
    assert_eq!(attrs.wire_type(), WireType::Sequence);
    assert!(!attrs.is_critical());
    assert_eq!(attrs.bounds(), SizeBounds::unbounded());
}

#[test]
fn attrs_refuse_an_unknown_wire_type() {
    assert_eq!(
        Attrs::new(1, "uint32", false, None, None, None),
        Err(Error::UnknownWireType)
    );
    assert_eq!(Attrs::new(1, "", true, Some(1), None, None), Err(Error::UnknownWireType));
}

#[test]
fn value_wire_types() {
    let expected = [
        WireType::UInt64,
        WireType::Bool,
        WireType::SInt64,
        WireType::Bytes,
        WireType::String,
        WireType::Message,
        WireType::Sequence,
    ];
    for (value, wire_type) in all_values().iter().zip(expected) {
        assert_eq!(value.wire_type(), wire_type);
    }
}

#[test]
fn value_check_against_definition() {
    let bounded = Attrs::new(4, "bytes", false, None, Some(4), Some(8)).unwrap();
    assert_eq!(Value::Bytes(vec![0; 4]).check(&bounded), Ok(()));
    assert_eq!(Value::Bytes(vec![0; 8]).check(&bounded), Ok(()));
    assert_eq!(Value::Bytes(vec![0; 3]).check(&bounded), Err(Error::SizeOutOfBounds));
    assert_eq!(Value::Bytes(vec![0; 9]).check(&bounded), Err(Error::SizeOutOfBounds));
    assert_eq!(Value::String("abcd".to_owned()).check(&bounded), Err(Error::UnexpectedWireType));
    assert_eq!(Value::UInt64(4).check(&bounded), Err(Error::UnexpectedWireType));
    let text = Attrs::new(5, "string", false, Some(2), None, None).unwrap();
    assert_eq!(Value::String("é".to_owned()).check(&text), Ok(()));
    assert_eq!(Value::String("e".to_owned()).check(&text), Err(Error::SizeOutOfBounds));
    // nested messages and sequences count by what they hold
    let message = Attrs::new(6, "message", false, Some(1), None, None).unwrap();
    assert_eq!(Value::Message(vec![0; 5]).check(&message), Err(Error::SizeOutOfBounds));
    assert_eq!(Value::Message(vec![0; 1]).check(&message), Ok(()));
    let sequence = Attrs::new(7, "sequence", false, None, Some(2), Some(4)).unwrap();
    assert_eq!(Value::Sequence(vec![]).check(&sequence), Err(Error::SizeOutOfBounds));
    assert_eq!(Value::Sequence(vec![vec![]]).check(&sequence), Ok(()));
    assert_eq!(Value::Sequence(vec![vec![1, 2]]).check(&sequence), Ok(()));
    assert_eq!(
        Value::Sequence(vec![vec![1, 2], vec![]]).check(&sequence),
        Err(Error::SizeOutOfBounds)
    );
}

#[test]
fn encode_field_dispatches_on_the_wire_type() {
    let mut buffer = [0u8; 64];
    let mut encoder = Encoder::new(&mut buffer);
    for (attrs, value) in all_types().iter().zip(all_values().iter()) {
        assert_eq!(encode_field(&mut encoder, attrs, value), Ok(()));
    }
    assert_eq!(encoder.finish(), &ALL_TYPES);
}

#[test]
fn encode_field_refuses_what_the_definition_does_not_permit() {
    let mut buffer = [0u8; 64];
    let mut encoder = Encoder::new(&mut buffer);
    let bounded = Attrs::new(4, "bytes", false, None, Some(4), Some(8)).unwrap();
    assert_eq!(
        encode_field(&mut encoder, &bounded, &Value::Bytes(vec![1, 2, 3])),
        Err(Error::SizeOutOfBounds)
    );
    assert_eq!(
        encode_field(&mut encoder, &bounded, &Value::Bool(true)),
        Err(Error::UnexpectedWireType)
    );
    assert_eq!(encode_field(&mut encoder, &bounded, &Value::Bytes(vec![1, 2, 3, 4])), Ok(()));
    assert_eq!(
        encode_field(&mut encoder, &bounded, &Value::Bytes(vec![1, 2, 3, 4])),
        Err(Error::TagOutOfOrder)
    );
    assert_eq!(encoder.finish(), &[0x09, 0x04, 0x09, 1, 2, 3, 4]);
}

#[test]
fn encoded_len_for_field_is_exact() {
    let lens = [3usize, 2, 3, 6, 5, 6, 8];
    for ((attrs, value), len) in all_types().iter().zip(all_values().iter()).zip(lens) {
        assert_eq!(encoded_len_for_field(attrs.tag(), value), Some(len));
    }
    assert_eq!(encoded_len_for_field(u64::MAX, &Value::UInt64(u64::MAX)), Some(19));
}

#[test]
fn decode_field_dispatches_on_the_wire_type() {
    let mut input = ALL_TYPES;
    input[20] = 0x06;
    let mut decoder = Decoder::<Sha256Accumulator>::new(&input);
    for (attrs, value) in all_types().iter().zip(all_values().iter()) {
        assert_eq!(decode_field(&mut decoder, attrs).as_ref(), Ok(value));
    }
    assert_eq!(decoder.check_input_consumed(), Ok(()));
    // the sequence counts by the hashes of its elements
    let mut folded = input[..27].to_vec();
    folded.extend_from_slice(&sha256(&[0x03, 0x00]));
    folded.extend_from_slice(&sha256(&[]));
    assert_eq!(decoder.fill_digest(), sha256(&folded));
}

#[test]
fn decode_field_applies_the_bounds() {
    let bounded = Attrs::new(4, "bytes", false, None, Some(4), Some(8)).unwrap();
    let mut decoder = Decoder::<Sha256Accumulator>::new(&ALL_TYPES);
    assert_eq!(decode_field(&mut decoder, &bounded), Err(Error::SizeOutOfBounds));
    let input = [0x09, 0x04, 0x09, 1, 2, 3, 4];
    let mut decoder = Decoder::<Sha256Accumulator>::new(&input);
    assert_eq!(decode_field(&mut decoder, &bounded), Ok(Value::Bytes(vec![1, 2, 3, 4])));
}

#[test]
fn hash_of_is_the_hash() {
    assert_eq!(hash_of::<Sha256Accumulator>(b"abc"), sha256(b"abc"));
    assert_eq!(hash_of::<Sha256Accumulator>(b""), sha256(b""));
}

#[test]
fn definitions_are_checked() {
    assert!(is_ascending(&all_types()));
    assert!(is_ascending(&[]));
    assert!(is_ascending(&[attrs(5, "bool")]));
    assert!(!is_ascending(&[attrs(5, "bool"), attrs(3, "bool")]));
    assert!(!is_ascending(&[attrs(3, "bool"), attrs(3, "bool")]));
    assert!(!is_ascending(&[attrs(1, "bool"), attrs(2, "bool"), attrs(2, "bool")]));
    assert!(is_distinct(&[attrs(5, "bool"), attrs(3, "bool"), attrs(4, "bool")]));
    assert!(!is_distinct(&[attrs(5, "bool"), attrs(3, "bool"), attrs(5, "bool")]));
    assert!(is_distinct(&[]));

    assert!(DeriveStruct::derive(all_types(), None).is_ok());
    assert!(DeriveStruct::derive(all_types(), Some(0)).is_ok());
    assert!(DeriveStruct::derive(all_types(), Some(7)).is_ok());
    assert_eq!(DeriveStruct::derive(all_types(), Some(8)).err(), Some(Error::DigestOutOfPlace));
    assert_eq!(
        DeriveStruct::derive(vec![attrs(5, "bool"), attrs(3, "bool")], None).err(),
        Some(Error::TagOutOfOrder)
    );
    assert_eq!(
        DeriveStruct::derive(vec![attrs(3, "bool"), attrs(3, "bool")], Some(9)).err(),
        Some(Error::TagOutOfOrder)
    );
    assert!(DeriveEnum::derive(vec![attrs(5, "bool"), attrs(3, "bool")]).is_ok());
    assert_eq!(
        DeriveEnum::derive(vec![attrs(5, "bool"), attrs(3, "bool"), attrs(5, "uint64")]).err(),
        Some(Error::TagOutOfOrder)
    );
}

#[test]
fn structure_encodes_to_exact_bytes() {
    let codec = DeriveStruct::derive(all_types(), None).unwrap();
    let mut buffer = [0u8; 40];
    assert_eq!(codec.encode(&all_values(), &mut buffer), Ok(&ALL_TYPES[..]));
    assert_eq!(codec.encoded_len(&all_values()), Ok(33));
    let mut exact = [0u8; 33];
    assert_eq!(codec.encode(&all_values(), &mut exact), Ok(&ALL_TYPES[..]));
}

#[test]
fn structure_round_trip() {
    for digest_at in [None, Some(0), Some(3), Some(7)] {
        let codec = DeriveStruct::derive(all_types(), digest_at).unwrap();
        let mut buffer = [0u8; 33];
        let encoded = codec.encode(&all_values(), &mut buffer).unwrap();
        let (values, digest) = codec.decode::<Sha256Accumulator>(encoded).unwrap();
        assert_eq!(values, all_values());
        assert_eq!(digest.is_some(), digest_at.is_some());
    }
}

#[test]
fn structure_length_exactness() {
    let codec = DeriveStruct::derive(vec![attrs(1, "uint64"), attrs(300, "bytes")], None).unwrap();
    for number in [0u64, 127, 128, 1 << 35, u64::MAX] {
        for size in [0usize, 1, 127, 128, 500] {
            let values = vec![Value::UInt64(number), Value::Bytes(vec![9; size])];
            let len = codec.encoded_len(&values).unwrap();
            let mut buffer = vec![0u8; len];
            assert_eq!(codec.encode(&values, &mut buffer).unwrap().len(), len);
            let mut shorter = vec![0u8; len - 1];
            assert_eq!(codec.encode(&values, &mut shorter), Err(Error::BufferTooSmall));
        }
    }
}

#[test]
fn structure_canonical_ordering() {
    let codec = DeriveStruct::derive(all_types(), Some(7)).unwrap();
    let (values, _) = codec.decode::<Sha256Accumulator>(&ALL_TYPES).unwrap();
    let mut buffer = [0u8; 33];
    assert_eq!(codec.encode(&values, &mut buffer), Ok(&ALL_TYPES[..]));
}

#[test]
fn structure_digest_is_of_the_fields_before_it() {
    let codec = DeriveStruct::derive(all_types(), Some(3)).unwrap();
    let (_, digest) = codec.decode::<Sha256Accumulator>(&ALL_TYPES).unwrap();
    assert_eq!(digest, Some(sha256(&ALL_TYPES[..8])));
    let codec = DeriveStruct::derive(all_types(), Some(0)).unwrap();
    let (_, digest) = codec.decode::<Sha256Accumulator>(&ALL_TYPES).unwrap();
    assert_eq!(digest, Some(sha256(&[])));
    let codec = DeriveStruct::derive(all_types(), Some(7)).unwrap();
    let (_, digest) = codec.decode::<Sha256Accumulator>(&ALL_TYPES).unwrap();
    let mut folded = ALL_TYPES[..27].to_vec();
    folded.extend_from_slice(&sha256(&[0x03, 0x00]));
    folded.extend_from_slice(&sha256(&[]));
    assert_eq!(digest, Some(sha256(&folded)));
    let codec = DeriveStruct::derive(all_types(), None).unwrap();
    let (_, digest) = codec.decode::<Sha256Accumulator>(&ALL_TYPES).unwrap();
    assert_eq!(digest, None);
}

#[test]
fn structure_skips_fields_that_it_does_not_know() {
    let known = vec![attrs(1, "uint64"), attrs(3, "sint64")];
    let codec = DeriveStruct::derive(known, Some(2)).unwrap();
    let input = [0x03, 0x02, 0x55, 0x05, 0x01, 0x07, 0x03, 0x03, 0x09, 0x04, 0x03, 0xFF];
    let (values, digest) = codec.decode::<Sha256Accumulator>(&input).unwrap();
    assert_eq!(values, vec![Value::UInt64(42), Value::SInt64(-1)]);
    assert_eq!(digest, Some(sha256(&input[..8])));
    // the same without the field behind the last that is known
    let (_, shorter) = codec.decode::<Sha256Accumulator>(&input[..8]).unwrap();
    assert_eq!(shorter, digest);
    // encoding again leaves the unknown fields out
    let mut buffer = [0u8; 12];
    assert_eq!(
        codec.encode(&values, &mut buffer),
        Ok(&[0x03u8, 0x02, 0x55, 0x07, 0x03, 0x03][..])
    );
}

#[test]
fn structure_refuses_critical_fields_that_it_does_not_know() {
    let known = vec![attrs(1, "uint64"), attrs(3, "sint64")];
    let codec = DeriveStruct::derive(known, None).unwrap();
    let between = [0x03, 0x02, 0x55, 0x05, 0x09, 0x07, 0x03, 0x03];
    assert_eq!(
        codec.decode::<Sha256Accumulator>(&between),
        Err(Error::UnknownCriticalField)
    );
    let behind = [0x03, 0x02, 0x55, 0x07, 0x03, 0x03, 0x09, 0x0C, 0x03, 0xFF];
    assert_eq!(
        codec.decode::<Sha256Accumulator>(&behind),
        Err(Error::UnknownCriticalField)
    );
}

#[test]
fn structure_decode_errors() {
    let codec = DeriveStruct::derive(vec![attrs(1, "uint64"), attrs(3, "sint64")], None).unwrap();
    assert_eq!(
        codec.decode::<Sha256Accumulator>(&[0x03, 0x02, 0x55]),
        Err(Error::TruncatedInput { element: Element::Tag })
    );
    // the fields in the wrong order: the first is passed over, the second
    // does not ascend
    assert_eq!(
        codec.decode::<Sha256Accumulator>(&[0x07, 0x03, 0x03, 0x03, 0x02, 0x55]),
        Err(Error::TagOutOfOrder)
    );
    assert_eq!(
        codec.decode::<Sha256Accumulator>(&[0x07, 0x03, 0x03]),
        Err(Error::TruncatedInput { element: Element::Tag })
    );
    assert_eq!(
        codec.decode::<Sha256Accumulator>(&[0x03, 0x02, 0x55, 0x07, 0x02, 0x03]),
        Err(Error::UnexpectedWireType)
    );
    assert_eq!(
        codec.decode::<Sha256Accumulator>(&[0x03, 0x02, 0x55, 0x07, 0x03, 0x03, 0x07, 0x03, 0x03]),
        Err(Error::TagOutOfOrder)
    );
    assert_eq!(
        codec.decode::<Sha256Accumulator>(&[0x03, 0x02, 0x55, 0x07, 0x03, 0x03, 0xFF]),
        Err(Error::TruncatedInput { element: Element::Tag })
    );
    let empty = DeriveStruct::derive(vec![], Some(0)).unwrap();
    assert_eq!(empty.decode::<Sha256Accumulator>(&[]), Ok((vec![], Some(sha256(&[])))));
}

#[test]
fn structure_encode_errors() {
    let codec = DeriveStruct::derive(
        vec![attrs(1, "uint64"), Attrs::new(4, "bytes", false, Some(2), None, None).unwrap()],
        None,
    )
    .unwrap();
    let mut buffer = [0xEEu8; 16];
    assert_eq!(codec.encode(&[Value::UInt64(1)], &mut buffer), Err(Error::FieldCount));
    assert_eq!(codec.encoded_len(&[]), Err(Error::FieldCount));
    assert_eq!(
        codec.encode(&[Value::UInt64(1), Value::UInt64(2)], &mut buffer),
        Err(Error::UnexpectedWireType)
    );
    assert_eq!(
        codec.encode(&[Value::UInt64(1), Value::Bytes(vec![1])], &mut buffer),
        Err(Error::SizeOutOfBounds)
    );
    // the first field that does not suit decides
    assert_eq!(
        codec.encoded_len(&[Value::Bool(true), Value::Bytes(vec![1])]),
        Err(Error::UnexpectedWireType)
    );
    assert_eq!(
        codec.encode(&[Value::UInt64(1), Value::Bytes(vec![1, 2])], &mut buffer[..7]),
        Err(Error::BufferTooSmall)
    );
    assert_eq!(buffer, [0xEE; 16]);
    assert_eq!(
        codec.encode(&[Value::UInt64(1), Value::Bytes(vec![1, 2])], &mut buffer[..8]),
        Ok(&[0x03u8, 0x02, 0x03, 0x09, 0x04, 0x05, 1, 2][..])
    );
}

fn shapes() -> DeriveEnum {
    DeriveEnum::derive(vec![
        attrs(7, "uint64"),
        attrs(2, "string"),
        Attrs::new(4, "bytes", true, Some(2), None, None).unwrap(),
        attrs(9, "sequence"),
    ])
    .unwrap()
}

#[test]
fn enumeration_selects_by_the_leading_tag() {
    let codec = shapes();
    assert_eq!(codec.variant(7), Some(0));
    assert_eq!(codec.variant(2), Some(1));
    assert_eq!(codec.variant(4), Some(2));
    assert_eq!(codec.variant(9), Some(3));
    assert_eq!(codec.variant(3), None);
    assert_eq!(
        codec.decode::<Sha256Accumulator>(&[0x0F, 0x02, 0x55]),
        Ok((0, Value::UInt64(42)))
    );
    assert_eq!(
        codec.decode::<Sha256Accumulator>(&[0x05, 0x05, 0x05, b'h', b'i']),
        Ok((1, Value::String("hi".to_owned())))
    );
    assert_eq!(
        codec.decode::<Sha256Accumulator>(&[0x09, 0x0C, 0x05, 1, 2]),
        Ok((2, Value::Bytes(vec![1, 2])))
    );
    assert_eq!(
        codec.decode::<Sha256Accumulator>(&[0x13, 0x07, 0x07, 0x06, 0x03, 0xAA]),
        Ok((3, Value::Sequence(vec![vec![0xAA]])))
    );
}

#[test]
fn enumeration_decode_errors() {
    let codec = shapes();
    assert_eq!(codec.decode::<Sha256Accumulator>(&[0x07, 0x02, 0x55]), Err(Error::UnknownTag));
    assert_eq!(
        codec.decode::<Sha256Accumulator>(&[]),
        Err(Error::TruncatedInput { element: Element::Tag })
    );
    assert_eq!(
        codec.decode::<Sha256Accumulator>(&[0x0F, 0x02, 0x55, 0x13, 0x02, 0x01]),
        Err(Error::TrailingData)
    );
    assert_eq!(
        codec.decode::<Sha256Accumulator>(&[0x0F, 0x02, 0x55, 0x00]),
        Err(Error::TrailingData)
    );
    assert_eq!(
        codec.decode::<Sha256Accumulator>(&[0x0F, 0x03, 0x55]),
        Err(Error::UnexpectedWireType)
    );
    assert_eq!(
        codec.decode::<Sha256Accumulator>(&[0x09, 0x0C, 0x07, 1, 2, 3]),
        Err(Error::SizeOutOfBounds)
    );
}

#[test]
fn enumeration_round_trip() {
    let codec = shapes();
    let cases = [
        (0usize, Value::UInt64(u64::MAX)),
        (1, Value::String("grüße".to_owned())),
        (2, Value::Bytes(vec![0, 255])),
        (3, Value::Sequence(vec![])),
        (3, Value::Sequence(vec![vec![1, 2, 3], vec![], vec![4]])),
    ];
    for (variant, value) in cases {
        let len = codec.encoded_len(variant, &value).unwrap();
        let mut buffer = vec![0u8; len];
        let encoded = codec.encode(variant, &value, &mut buffer).unwrap();
        assert_eq!(encoded.len(), len);
        assert_eq!(codec.decode::<Sha256Accumulator>(encoded), Ok((variant, value)));
    }
}

#[test]
fn enumeration_encode_exact_and_errors() {
    let codec = shapes();
    let mut buffer = [0u8; 8];
    assert_eq!(
        codec.encode(2, &Value::Bytes(vec![1, 2]), &mut buffer),
        Ok(&[0x09u8, 0x0C, 0x05, 1, 2][..])
    );
    assert_eq!(codec.encode(4, &Value::UInt64(1), &mut buffer), Err(Error::UnknownTag));
    assert_eq!(codec.encoded_len(4, &Value::UInt64(1)), Err(Error::UnknownTag));
    assert_eq!(codec.encode(0, &Value::Bool(true), &mut buffer), Err(Error::UnexpectedWireType));
    assert_eq!(
        codec.encode(2, &Value::Bytes(vec![1]), &mut buffer),
        Err(Error::SizeOutOfBounds)
    );
    assert_eq!(
        codec.encode(1, &Value::String("too long".to_owned()), &mut buffer),
        Err(Error::BufferTooSmall)
    );
    assert_eq!(codec.encoded_len(1, &Value::String("too long".to_owned())), Ok(11));
}

#[test]
fn decode_fields_reads_a_run_of_fields() {
    let mut decoder = Decoder::<Sha256Accumulator>::new(&ALL_TYPES);
    let fields = all_types();
    assert_eq!(decode_fields(&mut decoder, &fields[..3]), Ok(all_values()[..3].to_vec()));
    assert_eq!(decoder.peek_tag(), Ok(4));
    assert_eq!(decoder.fill_digest(), sha256(&ALL_TYPES[..8]));
    assert_eq!(decode_fields(&mut decoder, &fields[..0]), Ok(vec![]));
    assert_eq!(decoder.peek_tag(), Ok(4));
    assert_eq!(decode_fields(&mut decoder, &fields[3..]), Ok(all_values()[3..].to_vec()));
    assert_eq!(decoder.check_input_consumed(), Ok(()));
    // fields that are not asked for are passed over
    let mut decoder = Decoder::<Sha256Accumulator>::new(&ALL_TYPES);
    assert_eq!(decode_fields(&mut decoder, &fields[1..]), Ok(all_values()[1..].to_vec()));
    // unless they are critical
    let mut decoder = Decoder::<Sha256Accumulator>::new(&ALL_TYPES);
    assert_eq!(decode_fields(&mut decoder, &fields[6..]), Err(Error::UnknownCriticalField));
}

#[test]
fn check_values_reports_the_first_that_does_not_suit() {
    let fields = all_types();
    assert_eq!(check_values(&fields, &all_values()), Ok(()));
    assert_eq!(check_values(&fields, &all_values()[..2]), Ok(()));
    let mut values = all_values();
    values[4] = Value::Bool(false);
    assert_eq!(check_values(&fields, &values), Err(Error::UnexpectedWireType));
    let bounded = vec![
        Attrs::new(1, "bytes", false, Some(1), None, None).unwrap(),
        attrs(2, "bool"),
    ];
    assert_eq!(
        check_values(&bounded, &[Value::Bytes(vec![]), Value::UInt64(1)]),
        Err(Error::SizeOutOfBounds)
    );
}

#[test]
fn attrs_refuse_a_size_where_there_is_none() {
    for wire_type in ["bool", "uint64", "sint64"] {
        assert_eq!(
            Attrs::new(1, wire_type, false, Some(1), None, None),
            Err(Error::BoundsOutOfPlace)
        );
        assert_eq!(
            Attrs::new(1, wire_type, false, None, Some(1), None),
            Err(Error::BoundsOutOfPlace)
        );
        assert_eq!(
            Attrs::new(1, wire_type, true, None, None, Some(1)),
            Err(Error::BoundsOutOfPlace)
        );
        assert!(Attrs::new(1, wire_type, false, None, None, None).is_ok());
    }
    for wire_type in ["bytes", "string", "message", "sequence"] {
        assert!(Attrs::new(1, wire_type, false, Some(1), Some(0), Some(2)).is_ok());
    }
    // the wire type is looked at first
    assert_eq!(
        Attrs::new(1, "float", false, Some(1), None, None),
        Err(Error::UnknownWireType)
    );
    assert!(WireType::Bytes.is_sized());
    assert!(WireType::String.is_sized());
    assert!(WireType::Message.is_sized());
    assert!(WireType::Sequence.is_sized());
    assert!(!WireType::Bool.is_sized());
    assert!(!WireType::UInt64.is_sized());
    assert!(!WireType::SInt64.is_sized());
}

#[test]
fn structure_applies_bounds_to_messages_and_sequences() {
    let fields = vec![
        Attrs::new(6, "message", false, None, None, Some(3)).unwrap(),
        Attrs::new(7, "sequence", false, None, Some(2), None).unwrap(),
    ];
    let codec = DeriveStruct::derive(fields, None).unwrap();
    let good = vec![Value::Message(vec![1, 2, 3]), Value::Sequence(vec![vec![]])];
    let len = codec.encoded_len(&good).unwrap();
    let mut buffer = vec![0u8; len];
    let encoded = codec.encode(&good, &mut buffer).unwrap().to_vec();
    assert_eq!(encoded.len(), len);
    assert_eq!(codec.decode::<Sha256Accumulator>(&encoded), Ok((good, None)));

    let long = vec![Value::Message(vec![1, 2, 3, 4]), Value::Sequence(vec![vec![]])];
    assert_eq!(codec.encoded_len(&long), Err(Error::SizeOutOfBounds));
    let short = vec![Value::Message(vec![]), Value::Sequence(vec![])];
    assert_eq!(codec.encode(&short, &mut buffer), Err(Error::SizeOutOfBounds));
    // on the wire
    let long = [0x0D, 0x06, 0x09, 1, 2, 3, 4, 0x0F, 0x07, 0x05, 0x06, 0x01];
    assert_eq!(codec.decode::<Sha256Accumulator>(&long), Err(Error::SizeOutOfBounds));
    let short = [0x0D, 0x06, 0x01, 0x0F, 0x07, 0x03, 0x06];
    assert_eq!(codec.decode::<Sha256Accumulator>(&short), Err(Error::SizeOutOfBounds));
}

#[test]
fn structure_with_an_unknown_field_at_every_place() {
    let known = vec![attrs(2, "uint64"), attrs(4, "bytes"), attrs(6, "bool")];
    let values = vec![Value::UInt64(9), Value::Bytes(vec![7, 7]), Value::Bool(false)];
    let parts: [&[u8]; 3] = [&[0x05, 0x02, 0x13], &[0x09, 0x04, 0x05, 7, 7], &[0x0D, 0x00]];
    for digest_at in [None, Some(0), Some(1), Some(2), Some(3)] {
        let codec = DeriveStruct::derive(known.clone(), digest_at).unwrap();
        let plain: Vec<u8> = parts.concat();
        let (_, digest) = codec.decode::<Sha256Accumulator>(&plain).unwrap();
        for place in 0..=3usize {
            for critical in [false, true] {
                // a string at an odd tag, which the definition does not have
                let tag_byte = (2 * (2 * place as u8 + 1)) + 1;
                let kind = if critical { 0x0D } else { 0x05 };
                let mut input: Vec<u8> = parts[..place].concat();
                input.extend_from_slice(&[tag_byte, kind, 0x03, b'x']);
                input.extend_from_slice(&parts[place..].concat());
                let found = codec.decode::<Sha256Accumulator>(&input);
                if critical {
                    assert_eq!(found, Err(Error::UnknownCriticalField));
                } else {
                    let (decoded, with_field) = found.unwrap();
                    assert_eq!(decoded, values);
                    if digest_at.map_or(true, |at| at <= place) {
                        assert_eq!(with_field, digest);
                    } else {
                        assert_ne!(with_field, digest);
                    }
                }
            }
        }
    }
}
