use veriform::error::Error;
use veriform::field::WireType;

#[test]
fn parse_recognizes_every_wire_type() {
    assert_eq!(WireType::parse("bool"), Ok(WireType::Bool));
    assert_eq!(WireType::parse("uint64"), Ok(WireType::UInt64));
    assert_eq!(WireType::parse("sint64"), Ok(WireType::SInt64));
    assert_eq!(WireType::parse("bytes"), Ok(WireType::Bytes));
    assert_eq!(WireType::parse("string"), Ok(WireType::String));
    assert_eq!(WireType::parse("message"), Ok(WireType::Message));
    assert_eq!(WireType::parse("sequence"), Ok(WireType::Sequence));
}

#[test]
fn parse_rejects_other_tokens() {
    assert_eq!(WireType::parse(""), Err(Error::UnknownWireType));
    assert_eq!(WireType::parse("Bool"), Err(Error::UnknownWireType));
    assert_eq!(WireType::parse("uint32"), Err(Error::UnknownWireType));
    assert_eq!(WireType::parse("bytes "), Err(Error::UnknownWireType));
}

#[test]
fn rust_type_names_value_types() {
    assert_eq!(WireType::Bool.rust_type(), Some("bool"));
    assert_eq!(WireType::UInt64.rust_type(), Some("u64"));
    assert_eq!(WireType::SInt64.rust_type(), Some("i64"));
    assert_eq!(WireType::Bytes.rust_type(), Some("&[u8]"));
    assert_eq!(WireType::String.rust_type(), Some("&str"));
    assert_eq!(WireType::Message.rust_type(), None);
    assert_eq!(WireType::Sequence.rust_type(), None);
}

#[test]
fn predicates_pick_out_their_types() {
    assert!(WireType::Message.is_message());
    assert!(!WireType::Sequence.is_message());
    assert!(WireType::Sequence.is_sequence());
    assert!(!WireType::Bytes.is_sequence());
    assert!(WireType::Bytes.is_ref_type());
    assert!(WireType::String.is_ref_type());
    assert!(!WireType::UInt64.is_ref_type());
    assert!(WireType::Message.is_recursive());
    assert!(WireType::Sequence.is_recursive());
    assert!(!WireType::Bool.is_recursive());
}

#[test]
fn token_names_the_wire_type() {
    let all = [
        (WireType::Bool, "bool"),
        (WireType::UInt64, "uint64"),
        (WireType::SInt64, "sint64"),
        (WireType::Bytes, "bytes"),
        (WireType::String, "string"),
        (WireType::Message, "message"),
        (WireType::Sequence, "sequence"),
    ];
    for (wire_type, token) in all {
        assert_eq!(wire_type.token(), token);
        assert_eq!(WireType::parse(wire_type.token()), Ok(wire_type));
    }
}
