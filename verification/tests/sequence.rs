use veriform::decoder::{delimiter, extent};
use veriform::error::Error;
use veriform::field::WireType;
use veriform::header::Header;
use veriform::message::Element;
use veriform::sequence::{body_len, split};

#[test]
fn split_divides_a_sequence_into_its_elements() {
    assert_eq!(split(&[0x06]), Ok(vec![]));
    assert_eq!(split(&[0x06, 0x01]), Ok(vec![&[][..]]));
    assert_eq!(
        split(&[0x06, 0x05, 0xAA, 0xBB, 0x01, 0x03, 0xCC]),
        Ok(vec![&[0xAAu8, 0xBB][..], &[][..], &[0xCC][..]])
    );
}

#[test]
fn split_errors() {
    assert_eq!(split(&[]), Err(Error::TruncatedInput { element: Element::SequenceHeader }));
    for code in [0u8, 1, 2, 3, 4, 5, 7, 0x0E, 0xFF] {
        assert_eq!(
            split(&[code, 0x01]),
            Err(Error::InvalidEncoding { element: Element::SequenceHeader })
        );
    }
    assert_eq!(
        split(&[0x06, 0x05, 0xAA]),
        Err(Error::TruncatedInput { element: Element::Value })
    );
    assert_eq!(
        split(&[0x06, 0x03, 0xAA, 0x02]),
        Err(Error::TruncatedInput { element: Element::LengthDelimiter })
    );
    assert_eq!(
        split(&[0x06, 0x02, 0x00]),
        Err(Error::InvalidEncoding { element: Element::LengthDelimiter })
    );
}

#[test]
fn body_len_counts_the_code_and_each_element_with_its_length() {
    assert_eq!(body_len(&[]), Some(1));
    assert_eq!(body_len(&[vec![]]), Some(2));
    assert_eq!(body_len(&[vec![1, 2], vec![], vec![3]]), Some(1 + 3 + 1 + 2));
    assert_eq!(body_len(&[vec![0; 127], vec![0; 128]]), Some(1 + 128 + 130));
}

#[test]
fn delimiter_reads_a_length_and_checks_it() {
    assert_eq!(delimiter(&[0x01]), Ok((1, 0)));
    assert_eq!(delimiter(&[0x05, 1, 2, 3]), Ok((1, 2)));
    assert_eq!(delimiter(&[0x05, 1, 2]), Ok((1, 2)));
    assert_eq!(delimiter(&[0x05, 1]), Err(Error::TruncatedInput { element: Element::Value }));
    assert_eq!(
        delimiter(&[]),
        Err(Error::TruncatedInput { element: Element::LengthDelimiter })
    );
    let mut long = vec![0x02, 0x02];
    long.extend_from_slice(&[7; 128]);
    assert_eq!(delimiter(&long), Ok((2, 128)));
}

#[test]
fn extent_goes_by_the_wire_type() {
    let input = [0x05, 1, 2, 3];
    assert_eq!(extent(0, &input), Ok(0));
    assert_eq!(extent(1, &input), Ok(0));
    assert_eq!(extent(2, &input), Ok(1));
    assert_eq!(extent(3, &input), Ok(1));
    for code in 4u8..8 {
        assert_eq!(extent(code, &input), Ok(3));
        assert_eq!(
            extent(code, &input[..2]),
            Err(Error::TruncatedInput { element: Element::Value })
        );
        assert_eq!(
            extent(code, &[]),
            Err(Error::TruncatedInput { element: Element::LengthDelimiter })
        );
    }
    assert_eq!(extent(2, &[]), Err(Error::TruncatedInput { element: Element::Value }));
    assert_eq!(extent(0, &[]), Ok(0));
}

#[test]
fn header_kind_is_the_wire_type_of_the_code() {
    let kinds = [
        WireType::Bool,
        WireType::Bool,
        WireType::UInt64,
        WireType::SInt64,
        WireType::Bytes,
        WireType::String,
        WireType::Message,
        WireType::Sequence,
    ];
    for (code, kind) in kinds.iter().enumerate() {
        let header = Header { tag: 1, code: code as u8, critical: false };
        assert_eq!(header.kind(), *kind);
    }
}
