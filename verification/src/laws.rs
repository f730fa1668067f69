//! What holds of the format as a whole: what is written is read back as it
//! was, what is read and written again is the same bytes, lengths are
//! exact, tags that do not ascend and critical fields that are not known
//! are refused, and what a reader finds and folds into its digest does not
//! depend on what follows it.

use vstd::prelude::*;
use vstd::utf8::encode_utf8;
use crate::codec::{
    ascending, distinct, fields_encoding, joined, measure, read_enum, read_fields, read_struct,
    variant_of, Decoded, Outcome,
};
use crate::decoder::Cursor;
use crate::digest::Accumulator;
use crate::entry::{Entry, NUMBER};
use crate::message::{blank, hash_of_type, Message};
use crate::nested::element;
use crate::error::Error;
use crate::field::{Attrs, WireType};
use crate::header::{
    header_bytes, lemma_bytes_of_parse_header, lemma_header_len, lemma_parse_header_of_bytes,
    parse_header, Header, CODE_BYTES, CODE_FALSE, CODE_MESSAGE, CODE_SEQUENCE, CODE_SINT64,
    CODE_STRING, CODE_TRUE, CODE_UINT64,
};
use crate::message::Element;
use crate::value::{element_hashes, read_datum, Datum, Reading};
use crate::vint64::{
    lemma_parse_vint_extends, lemma_parse_vint_of_vint, lemma_vint_len, lemma_vint_of_parse_vint,
    parse_vint, vint, vint_len,
};
use crate::wire::{
    bool_field, delimited, elements_bytes, field, heading, lemma_delimiter_bound,
    lemma_passed_bound, lemma_value_extent_bound, locate, parse_delimiter, parse_elements,
    parse_sequence, passed, preceded, read_body, read_bool, read_field, read_sequence,
    read_sint64, read_uint64, sequence_body, shifted, sint64_field, skip_rest, uint64_field, value_extent,
    Body, Located, Span,
};
use crate::zigzag::{lemma_zigzag_inverse, zigzag};

verus! {

/// A field that was located starts, with its header, within the input.
pub proof fn lemma_locate_within(input: Seq<u8>, last: Option<u64>, tag: u64)
    requires
        locate(input, last, tag) is Ok,
    ensures
        ({
            let at = locate(input, last, tag)->Ok_0;
            &&& at.offset + 2 <= at.start <= input.len()
            &&& at.header.tag == tag
            &&& at.header.code < 8
        }),
    decreases input.len(),
{
    let (header, header_len) = heading(input, last)->Ok_0;
    lemma_bytes_of_parse_header(input);
    crate::header::lemma_header_len(header);
    if header.tag != tag {
        let skipped = passed(input, header, header_len)->Ok_0;
        lemma_passed_bound(input, last);
        lemma_locate_within(input.skip(skipped as int), Some(header.tag), tag);
    }
}

/// A field that was read lies within the input.
pub proof fn lemma_read_field_within(
    input: Seq<u8>,
    last: Option<u64>,
    tag: u64,
    wire_type: WireType,
)
    requires
        read_field(input, last, tag, wire_type) is Ok,
    ensures
        ({
            let span = read_field(input, last, tag, wire_type)->Ok_0;
            &&& 2 <= span.start <= span.end <= input.len()
            &&& span.header.tag == tag
            &&& span.header.code < 8
            &&& span.header.wire_type() == wire_type
        }),
{
    let at = locate(input, last, tag)->Ok_0;
    lemma_locate_within(input, last, tag);
    lemma_value_extent_bound(at.header.code, input.skip(at.start as int));
}

/// The value of a field with wire-type code `code`: nothing for a boolean,
/// one integer for the integer types, and a length with as many bytes
/// behind it for the others.
pub open spec fn is_payload(code: u8, payload: Seq<u8>) -> bool {
    if code <= CODE_TRUE {
        payload.len() == 0
    } else if code <= CODE_SINT64 {
        exists|value: u64| payload == vint(value)
    } else {
        exists|body: Seq<u8>| body.len() <= u64::MAX && payload == delimited(body)
    }
}

/// A length is read back with the bytes behind it, whatever follows them.
pub proof fn lemma_parse_delimiter_of(body: Seq<u8>, rest: Seq<u8>)
    requires
        body.len() <= u64::MAX,
    ensures
        parse_delimiter(delimited(body) + rest) == Ok::<(nat, nat), Error>(
            (vint_len(body.len() as u64), body.len()),
        ),
        delimited(body).len() == vint_len(body.len() as u64) + body.len(),
{
    let count = body.len() as u64;
    assert(delimited(body) + rest =~= vint(count) + (body + rest));
    lemma_parse_vint_of_vint(count, body + rest, Element::LengthDelimiter);
    lemma_vint_len(count);
}

/// The value of a field is as long as it is, whatever follows it.
pub proof fn lemma_value_extent_of(code: u8, payload: Seq<u8>, rest: Seq<u8>)
    requires
        is_payload(code, payload),
    ensures
        value_extent(code, payload + rest) == Ok::<nat, Error>(payload.len()),
{
    if code <= CODE_TRUE {
    } else if code <= CODE_SINT64 {
        let value = choose|value: u64| payload == vint(value);
        lemma_parse_vint_of_vint(value, rest, Element::Value);
        lemma_vint_len(value);
    } else {
        let body = choose|body: Seq<u8>| body.len() <= u64::MAX && payload == delimited(body);
        lemma_parse_delimiter_of(body, rest);
    }
}

/// A request for the field that stands first finds it there.
pub proof fn lemma_locate_first(
    tag: u64,
    critical: bool,
    code: u8,
    payload: Seq<u8>,
    rest: Seq<u8>,
    last: Option<u64>,
)
    requires
        code < 8,
        last is Some ==> last->Some_0 < tag,
    ensures
        locate(field(tag, critical, code, payload) + rest, last, tag) == Ok::<Located, Error>(
            Located {
                offset: 0,
                header: Header { tag, code, critical },
                start: vint_len(tag) + 1,
            },
        ),
        (field(tag, critical, code, payload) + rest).skip((vint_len(tag) + 1) as int) == payload + rest,
        field(tag, critical, code, payload).len() == vint_len(tag) + 1 + payload.len(),
{
    let header = Header { tag, code, critical };
    let input = field(tag, critical, code, payload) + rest;
    assert(input =~= header_bytes(header) + (payload + rest));
    lemma_parse_header_of_bytes(header, payload + rest);
    lemma_header_len(header);
    assert(input.skip((vint_len(tag) + 1) as int) =~= payload + rest);
}

/// A request for the field that stands first, by its wire type, finds it
/// there with all of its value.
pub proof fn lemma_read_field_first(
    tag: u64,
    critical: bool,
    code: u8,
    payload: Seq<u8>,
    rest: Seq<u8>,
    last: Option<u64>,
)
    requires
        code < 8,
        is_payload(code, payload),
        last is Some ==> last->Some_0 < tag,
    ensures
        read_field(
            field(tag, critical, code, payload) + rest,
            last,
            tag,
            (Header { tag, code, critical }).wire_type(),
        ) == Ok::<Span, Error>(
            Span {
                header: Header { tag, code, critical },
                start: vint_len(tag) + 1,
                end: field(tag, critical, code, payload).len(),
            },
        ),
        (field(tag, critical, code, payload) + rest).skip((vint_len(tag) + 1) as int) == payload + rest,
        field(tag, critical, code, payload).len() == vint_len(tag) + 1 + payload.len(),
{
    lemma_locate_first(tag, critical, code, payload, rest, last);
    lemma_value_extent_of(code, payload, rest);
}

/// A boolean field is read back as it was written.
pub proof fn lemma_read_bool_of(
    tag: u64,
    critical: bool,
    value: bool,
    rest: Seq<u8>,
    last: Option<u64>,
)
    requires
        last is Some ==> last->Some_0 < tag,
    ensures
        read_bool(bool_field(tag, critical, value) + rest, last, tag) == Ok::<(bool, nat), Error>(
            (value, bool_field(tag, critical, value).len()),
        ),
{
    let code = if value {
        CODE_TRUE
    } else {
        CODE_FALSE
    };
    lemma_read_field_first(tag, critical, code, Seq::empty(), rest, last);
}

/// An unsigned integer field is read back as it was written.
pub proof fn lemma_read_uint64_of(
    tag: u64,
    critical: bool,
    value: u64,
    rest: Seq<u8>,
    last: Option<u64>,
)
    requires
        last is Some ==> last->Some_0 < tag,
    ensures
        read_uint64(uint64_field(tag, critical, value) + rest, last, tag) == Ok::<
            (u64, nat),
            Error,
        >((value, uint64_field(tag, critical, value).len())),
{
    lemma_read_field_first(tag, critical, CODE_UINT64, vint(value), rest, last);
    lemma_parse_vint_of_vint(value, rest, Element::Value);
}

/// A signed integer field is read back as it was written.
pub proof fn lemma_read_sint64_of(
    tag: u64,
    critical: bool,
    value: i64,
    rest: Seq<u8>,
    last: Option<u64>,
)
    requires
        last is Some ==> last->Some_0 < tag,
    ensures
        read_sint64(sint64_field(tag, critical, value) + rest, last, tag) == Ok::<
            (i64, nat),
            Error,
        >((value, sint64_field(tag, critical, value).len())),
{
    lemma_read_field_first(tag, critical, CODE_SINT64, vint(zigzag(value)), rest, last);
    lemma_parse_vint_of_vint(zigzag(value), rest, Element::Value);
    lemma_zigzag_inverse(value, 0);
}

/// A length-delimited field is read back as it was written.
#[verifier::rlimit(50)]
pub proof fn lemma_read_body_of(
    tag: u64,
    critical: bool,
    code: u8,
    body: Seq<u8>,
    rest: Seq<u8>,
    last: Option<u64>,
)
    requires
        CODE_BYTES <= code <= CODE_SEQUENCE,
        body.len() <= u64::MAX,
        last is Some ==> last->Some_0 < tag,
    ensures
        read_body(
            field(tag, critical, code, delimited(body)) + rest,
            last,
            tag,
            (Header { tag, code, critical }).wire_type(),
        ) == Ok::<Body, Error>(
            Body {
                header: Header { tag, code, critical },
                start: vint_len(tag) + 1,
                bytes: body,
                end: field(tag, critical, code, delimited(body)).len(),
            },
        ),
{
    let payload = delimited(body);
    let input = field(tag, critical, code, payload) + rest;
    lemma_read_field_first(tag, critical, code, payload, rest, last);
    lemma_parse_delimiter_of(body, rest);
    let start = vint_len(tag) + 1;
    let taken = vint_len(body.len() as u64);
    assert(input.subrange((start + taken) as int, (start + taken + body.len()) as int) =~= body)
        by {
        assert(input.skip(start as int) == payload + rest);
        assert(payload + rest =~= vint(body.len() as u64) + (body + rest));
        lemma_vint_len(body.len() as u64);
        assert forall|i: int| 0 <= i < body.len() implies input[start + taken + i] == body[i] by {
            assert(input[start + taken + i] == input.skip(start as int)[taken + i]);
        }
    }
}

/// What reads as elements, followed by more, reads as those elements and
/// then what the rest reads as.
#[verifier::rlimit(50)]
pub proof fn lemma_parse_elements_append(front: Seq<u8>, back: Seq<u8>)
    requires
        parse_elements(front) is Ok,
    ensures
        parse_elements(front + back) == preceded(parse_elements(front)->Ok_0, parse_elements(back)),
    decreases front.len(),
{
    let rest = parse_elements(back);
    if front.len() == 0 {
        assert(front + back =~= back);
        if rest is Ok {
            assert(Seq::<Seq<u8>>::empty() + rest->Ok_0 =~= rest->Ok_0);
        }
    } else {
        let (taken, len) = parse_delimiter(front)->Ok_0;
        lemma_delimiter_bound(front);
        lemma_parse_vint_extends(front, back, Element::LengthDelimiter);
        let step = (taken + len) as int;
        assert((front + back).skip(step) =~= front.skip(step) + back);
        assert((front + back).subrange(taken as int, step) =~= front.subrange(taken as int, step));
        lemma_parse_elements_append(front.skip(step), back);
        let first = seq![front.subrange(taken as int, step)];
        let inner = parse_elements(front.skip(step))->Ok_0;
        if rest is Ok {
            assert(first + (inner + rest->Ok_0) =~= (first + inner) + rest->Ok_0);
        }
    }
}

/// The elements of a sequence are read back as they were written.
pub proof fn lemma_parse_elements_of(elements: Seq<Seq<u8>>)
    requires
        forall|i: int| 0 <= i < elements.len() ==> (#[trigger] elements[i]).len() <= u64::MAX,
    ensures
        parse_elements(elements_bytes(elements)) == Ok::<Seq<Seq<u8>>, Error>(elements),
    decreases elements.len(),
{
    if elements.len() > 0 {
        let init = elements.drop_last();
        let last = elements.last();
        lemma_parse_elements_of(init);
        lemma_parse_elements_append(elements_bytes(init), delimited(last));
        lemma_parse_element_of(last);
        assert(init + seq![last] =~= elements);
    } else {
        assert(elements =~= Seq::<Seq<u8>>::empty());
    }
}

/// One element behind its length is read back as that element.
pub proof fn lemma_parse_element_of(element: Seq<u8>)
    requires
        element.len() <= u64::MAX,
    ensures
        parse_elements(delimited(element)) == Ok::<Seq<Seq<u8>>, Error>(seq![element]),
{
    let whole = delimited(element);
    lemma_parse_delimiter_of(element, Seq::empty());
    assert(whole + Seq::<u8>::empty() =~= whole);
    let (taken, len) = parse_delimiter(whole)->Ok_0;
    lemma_vint_len(element.len() as u64);
    assert(whole.len() == taken + len);
    assert(whole.skip((taken + len) as int) =~= Seq::<u8>::empty());
    assert(whole.subrange(taken as int, (taken + len) as int) =~= element);
    assert(parse_elements(Seq::<u8>::empty()) == Ok::<Seq<Seq<u8>>, Error>(Seq::empty()));
    assert(seq![element] + Seq::<Seq<u8>>::empty() =~= seq![element]);
}

/// What a sequence field holds is read back as its elements.
pub proof fn lemma_parse_sequence_of(elements: Seq<Seq<u8>>)
    requires
        forall|i: int| 0 <= i < elements.len() ==> (#[trigger] elements[i]).len() <= u64::MAX,
    ensures
        parse_sequence(sequence_body(elements)) == Ok::<Seq<Seq<u8>>, Error>(elements),
{
    lemma_parse_elements_of(elements);
    assert(sequence_body(elements).skip(1) =~= elements_bytes(elements));
}

/// Whether the lengths in the encoding of `datum` can be written: no
/// length-delimited part of it has more bytes than a 64-bit integer counts.
pub open spec fn countable(datum: Datum) -> bool {
    match datum {
        Datum::Bytes(value) => value.len() <= u64::MAX,
        Datum::String(value) => encode_utf8(value).len() <= u64::MAX,
        Datum::Message(body) => body.len() <= u64::MAX,
        Datum::Sequence(elements) => {
            &&& sequence_body(elements).len() <= u64::MAX
            &&& forall|i: int| 0 <= i < elements.len() ==> (#[trigger] elements[i]).len() <= u64::MAX
        },
        _ => true,
    }
}

/// What reading the field with tag `tag` that holds `datum` folds into the
/// digest: the bytes of the field or, for a sequence, its header and then
/// the hashes of its elements.
pub open spec fn folding<A: Accumulator>(datum: Datum, tag: u64, critical: bool) -> Seq<u8> {
    match datum {
        Datum::Sequence(elements) => header_bytes(Header { tag, code: CODE_SEQUENCE, critical })
            + element_hashes::<A>(elements),
        _ => datum.field(tag, critical),
    }
}

/// Round trip of one field: a field that its definition permits is read
/// back, by that definition, as what it holds, and ends where its encoding
/// ends, whatever follows it.
#[verifier::rlimit(50)]
pub proof fn lemma_read_datum_of<A: Accumulator>(
    attrs: Attrs,
    datum: Datum,
    rest: Seq<u8>,
    last: Option<u64>,
)
    requires
        datum.suits(attrs),
        countable(datum),
        last is Some ==> last->Some_0 < attrs.spec_tag(),
    ensures
        read_datum::<A>(
            datum.field(attrs.spec_tag(), attrs.spec_is_critical()) + rest,
            last,
            attrs,
        ) == Ok::<Reading, Error>(
            Reading {
                datum,
                end: datum.field(attrs.spec_tag(), attrs.spec_is_critical()).len(),
                folded: folding::<A>(datum, attrs.spec_tag(), attrs.spec_is_critical()),
            },
        ),
{
    let tag = attrs.spec_tag();
    let critical = attrs.spec_is_critical();
    let whole = datum.field(tag, critical);
    let input = whole + rest;
    assert(input.take(whole.len() as int) =~= whole);
    match datum {
        Datum::Bool(value) => {
            lemma_read_bool_of(tag, critical, value, rest, last);
        },
        Datum::UInt64(value) => {
            lemma_read_uint64_of(tag, critical, value, rest, last);
        },
        Datum::SInt64(value) => {
            lemma_read_sint64_of(tag, critical, value, rest, last);
        },
        Datum::Bytes(value) => {
            lemma_read_body_of(tag, critical, CODE_BYTES, value, rest, last);
        },
        Datum::String(value) => {
            lemma_read_body_of(tag, critical, CODE_STRING, encode_utf8(value), rest, last);
            vstd::utf8::encode_utf8_valid_utf8(value);
            vstd::utf8::encode_utf8_decode_utf8(value);
        },
        Datum::Message(body) => {
            lemma_read_body_of(tag, critical, CODE_MESSAGE, body, rest, last);
        },
        Datum::Sequence(elements) => {
            let header = Header { tag, code: CODE_SEQUENCE, critical };
            lemma_read_body_of(tag, critical, CODE_SEQUENCE, sequence_body(elements), rest, last);
            lemma_parse_sequence_of(elements);
            lemma_header_len(header);
            assert(input.take((vint_len(tag) + 1) as int) =~= header_bytes(header));
        },
    }
}

/// The encodings of a run of fields are the first field's and then the
/// others'.
pub proof fn lemma_fields_encoding_front(fields: Seq<Attrs>, data: Seq<Datum>)
    requires
        fields.len() == data.len(),
        fields.len() > 0,
    ensures
        fields_encoding(fields, data) == data[0].field(
            fields[0].spec_tag(),
            fields[0].spec_is_critical(),
        ) + fields_encoding(fields.skip(1), data.skip(1)),
    decreases fields.len(),
{
    let first = data[0].field(fields[0].spec_tag(), fields[0].spec_is_critical());
    if fields.len() == 1 {
        assert(fields_encoding(fields.drop_last(), data.drop_last()) =~= Seq::<u8>::empty());
        assert(fields_encoding(fields.skip(1), data.skip(1)) =~= Seq::<u8>::empty());
        assert(Seq::<u8>::empty() + first =~= first + Seq::<u8>::empty());
    } else {
        let last = data.last().field(fields.last().spec_tag(), fields.last().spec_is_critical());
        lemma_fields_encoding_front(fields.drop_last(), data.drop_last());
        assert(fields.drop_last().skip(1) =~= fields.skip(1).drop_last());
        assert(data.drop_last().skip(1) =~= data.skip(1).drop_last());
        let middle = fields_encoding(fields.skip(1).drop_last(), data.skip(1).drop_last());
        assert((first + middle) + last =~= first + (middle + last));
    }
}

/// What reading a run of fields that hold `data` folds into the digest.
pub open spec fn fields_folding<A: Accumulator>(fields: Seq<Attrs>, data: Seq<Datum>) -> Seq<u8>
    decreases fields.len(),
{
    if fields.len() == 0 || data.len() == 0 {
        Seq::empty()
    } else {
        folding::<A>(data[0], fields[0].spec_tag(), fields[0].spec_is_critical())
            + fields_folding::<A>(fields.skip(1), data.skip(1))
    }
}

/// Whether each of the fields can hold what `data` gives it, in a
/// countable length.
pub open spec fn all_suit(fields: Seq<Attrs>, data: Seq<Datum>) -> bool {
    &&& fields.len() == data.len()
    &&& forall|i: int|
        0 <= i < fields.len() ==> (#[trigger] data[i]).suits(fields[i]) && countable(data[i])
}

/// Round trip of a run of fields: fields in ascending tag order, each
/// permitted by its definition, are read back as what they hold, up to the
/// end of their encodings, whatever follows them.
#[verifier::rlimit(50)]
pub proof fn lemma_read_fields_of<A: Accumulator>(
    fields: Seq<Attrs>,
    data: Seq<Datum>,
    rest: Seq<u8>,
    last: Option<u64>,
)
    requires
        ascending(fields),
        all_suit(fields, data),
        last is Some && fields.len() > 0 ==> last->Some_0 < fields[0].spec_tag(),
    ensures
        read_fields::<A>(fields, fields_encoding(fields, data) + rest, last) == Ok::<
            Outcome,
            Error,
        >(
            Outcome {
                data,
                end: fields_encoding(fields, data).len(),
                folded: fields_folding::<A>(fields, data),
                last: if fields.len() == 0 {
                    last
                } else {
                    Some(fields.last().spec_tag())
                },
            },
        ),
    decreases fields.len(),
{
    let whole = fields_encoding(fields, data);
    if fields.len() == 0 {
        assert(data =~= Seq::<Datum>::empty());
    } else {
        let attrs = fields[0];
        let first = data[0].field(attrs.spec_tag(), attrs.spec_is_critical());
        let others = fields_encoding(fields.skip(1), data.skip(1));
        lemma_fields_encoding_front(fields, data);
        assert(whole + rest =~= first + (others + rest));
        lemma_read_datum_of::<A>(attrs, data[0], others + rest, last);
        assert((first + (others + rest)).skip(first.len() as int) =~= others + rest);
        assert(ascending(fields.skip(1))) by {
            assert forall|i: int, j: int| 0 <= i < j < fields.skip(1).len() implies (
            #[trigger] fields.skip(1)[i]).spec_tag() < (#[trigger] fields.skip(1)[j]).spec_tag() by {
                assert(fields[i + 1].spec_tag() < fields[j + 1].spec_tag());
            }
        }
        assert(all_suit(fields.skip(1), data.skip(1))) by {
            assert forall|i: int| 0 <= i < fields.skip(1).len() implies (#[trigger] data.skip(
                1,
            )[i]).suits(fields.skip(1)[i]) && countable(data.skip(1)[i]) by {
                assert(data[i + 1].suits(fields[i + 1]));
            }
        }
        if fields.len() > 1 {
            assert(fields[0].spec_tag() < fields[1].spec_tag());
            assert(fields.skip(1).last() == fields.last());
        }
        lemma_read_fields_of::<A>(fields.skip(1), data.skip(1), rest, Some(attrs.spec_tag()));
        assert(seq![data[0]] + data.skip(1) =~= data);
    }
}

/// The encodings of a run of fields are those of its first `at` fields and
/// then those of the others.
pub proof fn lemma_fields_encoding_split(fields: Seq<Attrs>, data: Seq<Datum>, at: nat)
    requires
        fields.len() == data.len(),
        at <= fields.len(),
    ensures
        fields_encoding(fields, data) == fields_encoding(
            fields.take(at as int),
            data.take(at as int),
        ) + fields_encoding(fields.skip(at as int), data.skip(at as int)),
    decreases fields.len(),
{
    let head = fields_encoding(fields.take(at as int), data.take(at as int));
    if at == fields.len() {
        assert(fields.take(at as int) =~= fields);
        assert(data.take(at as int) =~= data);
        assert(fields_encoding(fields.skip(at as int), data.skip(at as int)) =~= Seq::<u8>::empty());
        assert(head + Seq::<u8>::empty() =~= head);
    } else {
        let last = data.last().field(fields.last().spec_tag(), fields.last().spec_is_critical());
        lemma_fields_encoding_split(fields.drop_last(), data.drop_last(), at);
        assert(fields.drop_last().take(at as int) =~= fields.take(at as int));
        assert(data.drop_last().take(at as int) =~= data.take(at as int));
        assert(fields.drop_last().skip(at as int) =~= fields.skip(at as int).drop_last());
        assert(data.drop_last().skip(at as int) =~= data.skip(at as int).drop_last());
        let middle = fields_encoding(
            fields.skip(at as int).drop_last(),
            data.skip(at as int).drop_last(),
        );
        assert(fields.skip(at as int).last() == fields.last());
        assert(data.skip(at as int).last() == data.last());
        assert((head + middle) + last =~= head + (middle + last));
    }
}

/// The parts of a run of fields in ascending tag order are in ascending
/// tag order, and the second part goes on above the first.
pub proof fn lemma_ascending_parts(fields: Seq<Attrs>, at: nat)
    requires
        ascending(fields),
        at <= fields.len(),
    ensures
        ascending(fields.take(at as int)),
        ascending(fields.skip(at as int)),
        0 < at < fields.len() ==> fields.take(at as int).last().spec_tag() < fields.skip(
            at as int,
        )[0].spec_tag(),
{
    assert forall|i: int, j: int| 0 <= i < j < fields.skip(at as int).len() implies (
    #[trigger] fields.skip(at as int)[i]).spec_tag() < (#[trigger] fields.skip(
        at as int,
    )[j]).spec_tag() by {
        assert(fields[at + i].spec_tag() < fields[at + j].spec_tag());
    }
    if 0 < at < fields.len() {
        assert(fields[at - 1].spec_tag() < fields[at as int].spec_tag());
    }
}

/// Where each field of a run can hold what it is given, so can each field
/// of its parts.
pub proof fn lemma_all_suit_parts(fields: Seq<Attrs>, data: Seq<Datum>, at: nat)
    requires
        all_suit(fields, data),
        at <= fields.len(),
    ensures
        all_suit(fields.take(at as int), data.take(at as int)),
        all_suit(fields.skip(at as int), data.skip(at as int)),
{
    assert forall|i: int| 0 <= i < fields.skip(at as int).len() implies (#[trigger] data.skip(
        at as int,
    )[i]).suits(fields.skip(at as int)[i]) && countable(data.skip(at as int)[i]) by {
        assert(data[at + i].suits(fields[at + i]));
    }
}

/// Round trip of a structure. Where each field is permitted by its
/// definition, decoding the encoding of a structure gives what its fields
/// hold. The digest, where the definition has one, is the hash of what the
/// fields before it fold.
#[verifier::rlimit(50)]
pub proof fn lemma_read_struct_of<A: Accumulator>(
    fields: Seq<Attrs>,
    digest_at: Option<nat>,
    data: Seq<Datum>,
)
    requires
        ascending(fields),
        all_suit(fields, data),
        digest_at is Some ==> digest_at->Some_0 <= fields.len(),
    ensures
        read_struct::<A>(fields, digest_at, fields_encoding(fields, data)) == Ok::<Decoded, Error>(
            Decoded {
                data,
                digest: match digest_at {
                    Some(at) => Some(
                        A::hash(
                            fields_folding::<A>(fields.take(at as int), data.take(at as int)),
                        ),
                    ),
                    None => None,
                },
            },
        ),
{
    let at = match digest_at {
        Some(at) => at,
        None => fields.len(),
    };
    let input = fields_encoding(fields, data);
    let front = fields_encoding(fields.take(at as int), data.take(at as int));
    let back = fields_encoding(fields.skip(at as int), data.skip(at as int));
    assert(input + Seq::<u8>::empty() == input) by {
        assert(input + Seq::<u8>::empty() =~= input);
    }
    lemma_struct_parts_before::<A>(fields, data, at, Seq::empty());
    let head = read_fields::<A>(fields.take(at as int), input, None)->Ok_0;
    let tail = read_fields::<A>(fields.skip(at as int), input.skip(head.end as int), head.last)->Ok_0;
    assert(skip_rest(Seq::<u8>::empty(), tail.last) == Ok::<(), Error>(()));
}

/// Among alternatives with distinct tags, a tag selects the alternative
/// that has it.
pub proof fn lemma_variant_of(variants: Seq<Attrs>, index: nat)
    requires
        distinct(variants),
        index < variants.len(),
    ensures
        variant_of(variants, variants[index as int].spec_tag()) == Some(index),
    decreases index,
{
    if index > 0 {
        assert(variants[0].spec_tag() != variants[index as int].spec_tag());
        assert(distinct(variants.skip(1))) by {
            assert forall|i: int, j: int| 0 <= i < j < variants.skip(1).len() implies (
            #[trigger] variants.skip(1)[i]).spec_tag() != (#[trigger] variants.skip(
                1,
            )[j]).spec_tag() by {
                assert(variants[i + 1].spec_tag() != variants[j + 1].spec_tag());
            }
        }
        lemma_variant_of(variants.skip(1), (index - 1) as nat);
    }
}

/// The wire-type code in the header of the field that holds `datum`.
pub open spec fn code_of(datum: Datum) -> u8 {
    match datum {
        Datum::Bool(value) => if value {
            CODE_TRUE
        } else {
            CODE_FALSE
        },
        Datum::UInt64(_) => CODE_UINT64,
        Datum::SInt64(_) => CODE_SINT64,
        Datum::Bytes(_) => CODE_BYTES,
        Datum::String(_) => CODE_STRING,
        Datum::Message(_) => CODE_MESSAGE,
        Datum::Sequence(_) => CODE_SEQUENCE,
    }
}

/// The field that holds `datum` starts with the header of its tag, its
/// wire type and its critical flag.
pub proof fn lemma_header_of_field(datum: Datum, tag: u64, critical: bool, rest: Seq<u8>)
    ensures
        parse_header(datum.field(tag, critical) + rest) matches Ok((header, _)) && header == (Header {
            tag,
            code: code_of(datum),
            critical,
        }),
{
    let header = Header { tag, code: code_of(datum), critical };
    let whole = datum.field(tag, critical);
    let payload = whole.skip(header_bytes(header).len() as int);
    assert(whole + rest =~= header_bytes(header) + (payload + rest));
    lemma_parse_header_of_bytes(header, payload + rest);
}

/// Round trip of an enumeration. Where the alternatives have distinct
/// tags, decoding the encoding of one of them gives that alternative and
/// what it holds.
pub proof fn lemma_read_enum_of<A: Accumulator>(variants: Seq<Attrs>, index: nat, datum: Datum)
    requires
        distinct(variants),
        index < variants.len(),
        datum.suits(variants[index as int]),
        countable(datum),
    ensures
        read_enum::<A>(
            variants,
            datum.field(
                variants[index as int].spec_tag(),
                variants[index as int].spec_is_critical(),
            ),
        ) == Ok::<(nat, Datum), Error>((index, datum)),
{
    let attrs = variants[index as int];
    let whole = datum.field(attrs.spec_tag(), attrs.spec_is_critical());
    assert(whole + Seq::<u8>::empty() =~= whole);
    lemma_header_of_field(datum, attrs.spec_tag(), attrs.spec_is_critical(), Seq::empty());
    lemma_variant_of(variants, index);
    lemma_read_datum_of::<A>(attrs, datum, Seq::empty(), None);
}

/// Tag order. A field whose tag is not above the tag before it is refused,
/// whether it is asked for or passed: that covers a repeated tag and a
/// descending one.
pub proof fn lemma_tag_out_of_order(
    tag: u64,
    critical: bool,
    code: u8,
    payload: Seq<u8>,
    rest: Seq<u8>,
    last: u64,
    wanted: u64,
)
    requires
        code < 8,
        tag <= last,
    ensures
        locate(field(tag, critical, code, payload) + rest, Some(last), wanted) == Err::<
            Located,
            Error,
        >(Error::TagOutOfOrder),
        skip_rest(field(tag, critical, code, payload) + rest, Some(last)) == Err::<(), Error>(
            Error::TagOutOfOrder,
        ),
{
    let header = Header { tag, code, critical };
    let input = field(tag, critical, code, payload) + rest;
    assert(input =~= header_bytes(header) + (payload + rest));
    lemma_parse_header_of_bytes(header, payload + rest);
    lemma_header_len(header);
}

/// Critical fields. A field that is not asked for stops the reader where
/// it is critical. Where it is not, the reader goes on behind it, as if it
/// had started there.
pub proof fn lemma_unknown_field(
    tag: u64,
    critical: bool,
    code: u8,
    payload: Seq<u8>,
    rest: Seq<u8>,
    last: Option<u64>,
    wanted: u64,
)
    requires
        code < 8,
        is_payload(code, payload),
        last is Some ==> last->Some_0 < tag,
        tag != wanted,
    ensures
        critical ==> locate(field(tag, critical, code, payload) + rest, last, wanted) == Err::<
            Located,
            Error,
        >(Error::UnknownCriticalField),
        critical ==> skip_rest(field(tag, critical, code, payload) + rest, last) == Err::<
            (),
            Error,
        >(Error::UnknownCriticalField),
        !critical ==> locate(field(tag, critical, code, payload) + rest, last, wanted) == shifted(
            locate(rest, Some(tag), wanted),
            field(tag, critical, code, payload).len(),
        ),
        !critical ==> skip_rest(field(tag, critical, code, payload) + rest, last) == skip_rest(
            rest,
            Some(tag),
        ),
{
    let header = Header { tag, code, critical };
    let whole = field(tag, critical, code, payload);
    let input = whole + rest;
    assert(input =~= header_bytes(header) + (payload + rest));
    lemma_parse_header_of_bytes(header, payload + rest);
    lemma_header_len(header);
    let header_len = header_bytes(header).len();
    assert(input.skip(header_len as int) =~= payload + rest);
    lemma_value_extent_of(code, payload, rest);
    assert(input.skip(whole.len() as int) =~= rest);
}

/// A value that is complete stays as long as it is when more follows.
pub proof fn lemma_value_extent_extends(code: u8, input: Seq<u8>, more: Seq<u8>)
    requires
        value_extent(code, input) is Ok,
    ensures
        value_extent(code, input + more) == value_extent(code, input),
{
    if code > CODE_TRUE {
        if code <= CODE_SINT64 {
            lemma_parse_vint_extends(input, more, Element::Value);
        } else {
            lemma_parse_vint_extends(input, more, Element::LengthDelimiter);
        }
    }
}

/// A field that is found stays where it is when more follows the input.
pub proof fn lemma_locate_extends(input: Seq<u8>, more: Seq<u8>, last: Option<u64>, tag: u64)
    requires
        locate(input, last, tag) is Ok,
    ensures
        locate(input + more, last, tag) == locate(input, last, tag),
    decreases input.len(),
{
    let (header, header_len) = heading(input, last)->Ok_0;
    crate::header::lemma_parse_header_extends(input, more);
    if header.tag != tag {
        let skipped = passed(input, header, header_len)->Ok_0;
        lemma_bytes_of_parse_header(input);
        lemma_passed_bound(input, last);
        assert((input + more).skip(header_len as int) =~= input.skip(header_len as int) + more);
        lemma_value_extent_extends(header.code, input.skip(header_len as int), more);
        assert((input + more).skip(skipped as int) =~= input.skip(skipped as int) + more);
        lemma_locate_extends(input.skip(skipped as int), more, Some(header.tag), tag);
    }
}

/// A field that is read stays what it is when more follows the input.
pub proof fn lemma_read_field_extends(
    input: Seq<u8>,
    more: Seq<u8>,
    last: Option<u64>,
    tag: u64,
    wire_type: WireType,
)
    requires
        read_field(input, last, tag, wire_type) is Ok,
    ensures
        read_field(input + more, last, tag, wire_type) == read_field(input, last, tag, wire_type),
        ({
            let span = read_field(input, last, tag, wire_type)->Ok_0;
            &&& span.start <= span.end <= input.len()
            &&& (input + more).skip(span.start as int) == input.skip(span.start as int) + more
            &&& (input + more).take(span.end as int) == input.take(span.end as int)
            &&& (input + more).take(span.start as int) == input.take(span.start as int)
        }),
{
    let at = locate(input, last, tag)->Ok_0;
    lemma_locate_extends(input, more, last, tag);
    lemma_read_field_within(input, last, tag, wire_type);
    let span = read_field(input, last, tag, wire_type)->Ok_0;
    assert((input + more).skip(at.start as int) =~= input.skip(at.start as int) + more);
    lemma_value_extent_extends(at.header.code, input.skip(at.start as int), more);
    assert((input + more).take(span.end as int) =~= input.take(span.end as int));
    assert((input + more).take(span.start as int) =~= input.take(span.start as int));
}

/// A length-delimited field that is read stays what it is when more
/// follows the input.
pub proof fn lemma_read_body_extends(
    input: Seq<u8>,
    more: Seq<u8>,
    last: Option<u64>,
    tag: u64,
    wire_type: WireType,
)
    requires
        read_body(input, last, tag, wire_type) is Ok,
        wire_type == WireType::Bytes || wire_type == WireType::String || wire_type
            == WireType::Message || wire_type == WireType::Sequence,
    ensures
        read_body(input + more, last, tag, wire_type) == read_body(input, last, tag, wire_type),
{
    lemma_read_field_extends(input, more, last, tag, wire_type);
    lemma_read_field_within(input, last, tag, wire_type);
    let span = read_field(input, last, tag, wire_type)->Ok_0;
    let here = input.skip(span.start as int);
    lemma_parse_vint_extends(here, more, Element::LengthDelimiter);
    let taken = parse_delimiter(here)->Ok_0.0;
    assert((input + more).subrange((span.start + taken) as int, span.end as int)
        =~= input.subrange((span.start + taken) as int, span.end as int));
}

/// Reading one field gives the same, and folds the same into the digest,
/// when more follows the input.
#[verifier::rlimit(50)]
pub proof fn lemma_read_datum_extends<A: Accumulator>(
    input: Seq<u8>,
    more: Seq<u8>,
    last: Option<u64>,
    attrs: Attrs,
)
    requires
        read_datum::<A>(input, last, attrs) is Ok,
    ensures
        read_datum::<A>(input + more, last, attrs) == read_datum::<A>(input, last, attrs),
        read_datum::<A>(input, last, attrs)->Ok_0.end <= input.len(),
{
    let tag = attrs.spec_tag();
    let wire_type = attrs.spec_wire_type();
    lemma_read_field_extends(input, more, last, tag, wire_type);
    lemma_read_field_within(input, last, tag, wire_type);
    let span = read_field(input, last, tag, wire_type)->Ok_0;
    match wire_type {
        WireType::Bool => {},
        WireType::UInt64 => {
            lemma_parse_vint_extends(input.skip(span.start as int), more, Element::Value);
        },
        WireType::SInt64 => {
            lemma_parse_vint_extends(input.skip(span.start as int), more, Element::Value);
        },
        _ => {
            lemma_read_body_extends(input, more, last, tag, wire_type);
        },
    }
}

/// Digest stability. Where a reader finds its fields in a message, it finds
/// the same in any message that goes on behind that one: the same values,
/// the same number of bytes passed, and the same folded into the digest,
/// so that a digest taken then is the same.
pub proof fn lemma_read_fields_extends<A: Accumulator>(
    fields: Seq<Attrs>,
    input: Seq<u8>,
    more: Seq<u8>,
    last: Option<u64>,
)
    requires
        read_fields::<A>(fields, input, last) is Ok,
    ensures
        read_fields::<A>(fields, input + more, last) == read_fields::<A>(fields, input, last),
    decreases fields.len(),
{
    if fields.len() > 0 {
        let first = read_datum::<A>(input, last, fields[0])->Ok_0;
        lemma_read_datum_extends::<A>(input, more, last, fields[0]);
        assert((input + more).skip(first.end as int) =~= input.skip(first.end as int) + more);
        lemma_read_fields_extends::<A>(
            fields.skip(1),
            input.skip(first.end as int),
            more,
            Some(fields[0].spec_tag()),
        );
    }
}

/// The elements of a sequence are the first, behind its length, and then
/// the others.
pub proof fn lemma_elements_bytes_front(first: Seq<u8>, others: Seq<Seq<u8>>)
    ensures
        elements_bytes(seq![first] + others) == delimited(first) + elements_bytes(others),
    decreases others.len(),
{
    let all = seq![first] + others;
    if others.len() == 0 {
        assert(all.drop_last() =~= Seq::<Seq<u8>>::empty());
        assert(elements_bytes(all.drop_last()) =~= Seq::<u8>::empty());
        assert(Seq::<u8>::empty() + delimited(first) =~= delimited(first) + Seq::<u8>::empty());
    } else {
        lemma_elements_bytes_front(first, others.drop_last());
        assert(all.drop_last() =~= seq![first] + others.drop_last());
        assert(all.last() == others.last());
        assert((delimited(first) + elements_bytes(others.drop_last())) + delimited(others.last())
            =~= delimited(first) + (elements_bytes(others.drop_last()) + delimited(
            others.last(),
        )));
    }
}

/// What reads as a length with bytes behind it is the encoding of that
/// length and those bytes.
pub proof fn lemma_delimited_of_parse(input: Seq<u8>)
    requires
        parse_delimiter(input) is Ok,
    ensures
        ({
            let (taken, len) = parse_delimiter(input)->Ok_0;
            &&& len <= u64::MAX
            &&& taken + len <= input.len()
            &&& input.take((taken + len) as int) == delimited(
                input.subrange(taken as int, (taken + len) as int),
            )
        }),
{
    let (taken, len) = parse_delimiter(input)->Ok_0;
    lemma_vint_of_parse_vint(input, Element::LengthDelimiter);
    assert(input.take((taken + len) as int) =~= input.take(taken as int) + input.subrange(
        taken as int,
        (taken + len) as int,
    ));
}

/// What reads as elements is the encoding of those elements.
pub proof fn lemma_elements_bytes_of_parse(input: Seq<u8>)
    requires
        parse_elements(input) is Ok,
    ensures
        elements_bytes(parse_elements(input)->Ok_0) == input,
        forall|i: int|
            0 <= i < parse_elements(input)->Ok_0.len() ==> (#[trigger] parse_elements(
                input,
            )->Ok_0[i]).len() <= u64::MAX,
    decreases input.len(),
{
    if input.len() > 0 {
        let (taken, len) = parse_delimiter(input)->Ok_0;
        let step = (taken + len) as int;
        let first = input.subrange(taken as int, step);
        let others = parse_elements(input.skip(step))->Ok_0;
        lemma_delimiter_bound(input);
        lemma_delimited_of_parse(input);
        lemma_elements_bytes_of_parse(input.skip(step));
        lemma_elements_bytes_front(first, others);
        assert(input.take(step) + input.skip(step) =~= input);
    }
}

/// Whether `input` holds the fields asked for as they are defined, with
/// nothing before or between them: each stands where the one before it
/// ends, and has the critical flag of its definition.
pub open spec fn plain<A: Accumulator>(fields: Seq<Attrs>, input: Seq<u8>, last: Option<u64>) -> bool
    decreases fields.len(),
{
    if fields.len() == 0 {
        true
    } else {
        &&& locate(input, last, fields[0].spec_tag()) matches Ok(at) && at.offset == 0
            && at.header.critical == fields[0].spec_is_critical()
        &&& read_datum::<A>(input, last, fields[0]) matches Ok(first) && plain::<A>(
            fields.skip(1),
            input.skip(first.end as int),
            Some(fields[0].spec_tag()),
        )
    }
}

/// A field that stands first and was read is, up to its end, the encoding
/// of what it holds.
#[verifier::rlimit(50)]
pub proof fn lemma_field_of_read_datum<A: Accumulator>(
    input: Seq<u8>,
    last: Option<u64>,
    attrs: Attrs,
)
    requires
        read_datum::<A>(input, last, attrs) is Ok,
        locate(input, last, attrs.spec_tag())->Ok_0.offset == 0,
    ensures
        ({
            let reading = read_datum::<A>(input, last, attrs)->Ok_0;
            let critical = locate(input, last, attrs.spec_tag())->Ok_0.header.critical;
            &&& reading.end <= input.len()
            &&& input.take(reading.end as int) == reading.datum.field(attrs.spec_tag(), critical)
            &&& reading.datum.suits(attrs)
            &&& countable(reading.datum)
        }),
{
    let tag = attrs.spec_tag();
    let wire_type = attrs.spec_wire_type();
    let reading = read_datum::<A>(input, last, attrs)->Ok_0;
    lemma_read_field_within(input, last, tag, wire_type);
    let span = read_field(input, last, tag, wire_type)->Ok_0;
    let header = span.header;
    lemma_bytes_of_parse_header(input);
    let here = input.skip(span.start as int);
    assert(input.take(span.end as int) =~= input.take(span.start as int) + here.take(
        (span.end - span.start) as int,
    ));
    match wire_type {
        WireType::Bool => {
            assert(here.take(0) =~= Seq::<u8>::empty());
        },
        WireType::UInt64 => {
            lemma_vint_of_parse_vint(here, Element::Value);
        },
        WireType::SInt64 => {
            lemma_vint_of_parse_vint(here, Element::Value);
            lemma_zigzag_inverse(0, parse_vint(here, Element::Value)->Ok_0.0);
        },
        _ => {
            lemma_delimited_of_parse(here);
            let (taken, len) = parse_delimiter(here)->Ok_0;
            let bytes = input.subrange((span.start + taken) as int, span.end as int);
            assert(here.subrange(taken as int, (taken + len) as int) =~= bytes);
            if wire_type == WireType::String {
                vstd::utf8::decode_utf8_encode_utf8(bytes);
            }
            if wire_type == WireType::Sequence {
                let elements = parse_sequence(bytes)->Ok_0;
                lemma_elements_bytes_of_parse(bytes.skip(1));
                assert(seq![CODE_MESSAGE] + bytes.skip(1) =~= bytes);
            }
        },
    }
}

/// Canonical encoding of a run of fields. Where the input holds the fields
/// asked for as they are defined, with nothing before or between them,
/// encoding what was read gives the input back, up to where the last field
/// ends.
#[verifier::rlimit(50)]
pub proof fn lemma_canonical_fields<A: Accumulator>(
    fields: Seq<Attrs>,
    input: Seq<u8>,
    last: Option<u64>,
)
    requires
        read_fields::<A>(fields, input, last) is Ok,
        plain::<A>(fields, input, last),
    ensures
        ({
            let outcome = read_fields::<A>(fields, input, last)->Ok_0;
            &&& outcome.data.len() == fields.len()
            &&& outcome.end <= input.len()
            &&& fields_encoding(fields, outcome.data) == input.take(outcome.end as int)
            &&& all_suit(fields, outcome.data)
        }),
    decreases fields.len(),
{
    let outcome = read_fields::<A>(fields, input, last)->Ok_0;
    if fields.len() == 0 {
        assert(input.take(0) =~= Seq::<u8>::empty());
    } else {
        let first = read_datum::<A>(input, last, fields[0])->Ok_0;
        let rest = input.skip(first.end as int);
        lemma_field_of_read_datum::<A>(input, last, fields[0]);
        lemma_canonical_fields::<A>(fields.skip(1), rest, Some(fields[0].spec_tag()));
        let others = read_fields::<A>(fields.skip(1), rest, Some(fields[0].spec_tag()))->Ok_0;
        assert(outcome.data =~= seq![first.datum] + others.data);
        assert(outcome.data.skip(1) =~= others.data);
        assert(outcome.data[0] == first.datum);
        lemma_fields_encoding_front(fields, outcome.data);
        assert(input.take(outcome.end as int) =~= input.take(first.end as int) + rest.take(
            others.end as int,
        ));
        assert forall|i: int| 0 <= i < fields.len() implies (#[trigger] outcome.data[i]).suits(
            fields[i],
        ) && countable(outcome.data[i]) by {
            if i > 0 {
                assert(others.data[i - 1].suits(fields.skip(1)[i - 1]));
            }
        }
    }
}

/// Length exactness. Where a structure has an encoding, the length that is
/// computed for it is the length of that encoding.
pub proof fn lemma_length_exact(fields: Seq<Attrs>, data: Seq<Datum>)
    ensures
        measure(fields, data) matches Ok(len) ==> len == fields_encoding(fields, data).len(),
        forall|tag: u64, critical: bool, datum: Datum|
            datum.field_len(tag) == #[trigger] datum.field(tag, critical).len(),
{
    crate::codec::lemma_fields_len(fields, data);
    assert forall|tag: u64, critical: bool, datum: Datum|
        datum.field_len(tag) == #[trigger] datum.field(tag, critical).len() by {
        crate::value::lemma_field_len_of_datum(tag, datum);
    }
}

/// Sequence composability. What a sequence folds into its parent's digest
/// is its header and then the digests of its elements, in order: two
/// sequences with the same header whose elements have the same digests,
/// one by one, fold the same.
pub proof fn lemma_sequence_folding<A: Accumulator>(
    tag: u64,
    critical: bool,
    left: Seq<Seq<u8>>,
    right: Seq<Seq<u8>>,
)
    requires
        left.len() == right.len(),
        forall|i: int| 0 <= i < left.len() ==> A::hash(#[trigger] left[i]) == A::hash(right[i]),
    ensures
        folding::<A>(Datum::Sequence(left), tag, critical) == folding::<A>(
            Datum::Sequence(right),
            tag,
            critical,
        ),
{
    lemma_element_hashes::<A>(left, right);
}

/// The digests of elements one after the other are the same where the
/// elements have the same digests, one by one.
pub proof fn lemma_element_hashes<A: Accumulator>(left: Seq<Seq<u8>>, right: Seq<Seq<u8>>)
    requires
        left.len() == right.len(),
        forall|i: int| 0 <= i < left.len() ==> A::hash(#[trigger] left[i]) == A::hash(right[i]),
    ensures
        element_hashes::<A>(left) == element_hashes::<A>(right),
    decreases left.len(),
{
    if left.len() > 0 {
        assert(A::hash(left[left.len() - 1]) == A::hash(right[left.len() - 1]));
        assert forall|i: int| 0 <= i < left.drop_last().len() implies A::hash(
            #[trigger] left.drop_last()[i],
        ) == A::hash(right.drop_last()[i]) by {
            assert(A::hash(left[i]) == A::hash(right[i]));
        }
        lemma_element_hashes::<A>(left.drop_last(), right.drop_last());
    }
}

/// Round trip of an entry. An entry can be encoded into a buffer of just
/// the length of its encoding, and what is decoded from its encoding holds
/// its number and, as its digest, the hash of the encoding.
pub proof fn lemma_entry_round_trip<A: Accumulator>(entry: Entry)
    ensures
        entry.refusal(blank(entry.encoding().len())) is None,
        element::<Entry, A>(entry.encoding()) == Ok::<(Seq<Datum>, Seq<u8>), Error>(
            (
                seq![Datum::UInt64(entry.number), Datum::Bytes(A::hash(entry.encoding()))],
                A::hash(entry.encoding()),
            ),
        ),
{
    let whole = entry.encoding();
    let start = Cursor::start(whole);
    lemma_read_uint64_of(NUMBER, false, entry.number, Seq::empty(), None);
    assert(whole + Seq::<u8>::empty() =~= whole);
    assert(start.remaining() =~= whole);
    assert(start.transcript + whole.take(whole.len() as int) =~= whole);
    assert(whole.skip(whole.len() as int) =~= Seq::<u8>::empty());
    let after = Entry::decoded(start, hash_of_type::<A>()).1;
    assert(after.remaining() =~= Seq::<u8>::empty());
}

/// Whether `input` is a structure as it is defined and nothing more: the
/// fields before the digest and the fields behind it stand as they are
/// defined, with nothing before or between them, and nothing is left
/// behind the last.
pub open spec fn as_defined<A: Accumulator>(
    fields: Seq<Attrs>,
    digest_at: Option<nat>,
    input: Seq<u8>,
) -> bool {
    let at = match digest_at {
        Some(at) => at,
        None => fields.len(),
    };
    &&& at <= fields.len()
    &&& plain::<A>(fields.take(at as int), input, None)
    &&& read_fields::<A>(fields.take(at as int), input, None) matches Ok(head) && head.end
        <= input.len() && plain::<A>(
        fields.skip(at as int),
        input.skip(head.end as int),
        head.last,
    ) && (read_fields::<A>(fields.skip(at as int), input.skip(head.end as int), head.last) matches Ok(
        tail,
    ) && head.end + tail.end == input.len())
}

/// Canonical encoding of a structure. Where the input is a structure as
/// it is defined and nothing more, encoding what decoding it gave gives the
/// input back, byte for byte.
#[verifier::rlimit(50)]
pub proof fn lemma_canonical_struct<A: Accumulator>(
    fields: Seq<Attrs>,
    digest_at: Option<nat>,
    input: Seq<u8>,
)
    requires
        read_struct::<A>(fields, digest_at, input) is Ok,
        as_defined::<A>(fields, digest_at, input),
    ensures
        fields_encoding(fields, read_struct::<A>(fields, digest_at, input)->Ok_0.data) == input,
        all_suit(fields, read_struct::<A>(fields, digest_at, input)->Ok_0.data),
{
    let at = match digest_at {
        Some(at) => at,
        None => fields.len(),
    };
    let data = read_struct::<A>(fields, digest_at, input)->Ok_0.data;
    let head = read_fields::<A>(fields.take(at as int), input, None)->Ok_0;
    let rest = input.skip(head.end as int);
    let tail = read_fields::<A>(fields.skip(at as int), rest, head.last)->Ok_0;
    lemma_canonical_fields::<A>(fields.take(at as int), input, None);
    lemma_canonical_fields::<A>(fields.skip(at as int), rest, head.last);
    assert(data.take(at as int) =~= head.data);
    assert(data.skip(at as int) =~= tail.data);
    lemma_fields_encoding_split(fields, data, at);
    assert(input.take(head.end as int) + rest.take(tail.end as int) =~= input);
    assert forall|i: int| 0 <= i < fields.len() implies (#[trigger] data[i]).suits(fields[i])
        && countable(data[i]) by {
        if i < at {
            assert(head.data[i].suits(fields.take(at as int)[i]));
        } else {
            assert(tail.data[i - at].suits(fields.skip(at as int)[i - at]));
        }
    }
}

/// `found`, seen from in front of `before`, which was passed and folded on
/// the way.
pub open spec fn deferred(found: Result<Reading, Error>, before: Seq<u8>) -> Result<
    Reading,
    Error,
> {
    match found {
        Err(e) => Err(e),
        Ok(reading) => Ok(
            Reading {
                datum: reading.datum,
                end: before.len() + reading.end,
                folded: before + reading.folded,
            },
        ),
    }
}

/// A request that meets a field with another tag first stops there where
/// that field is critical.
pub proof fn lemma_read_datum_at_critical<A: Accumulator>(
    tag: u64,
    code: u8,
    payload: Seq<u8>,
    inner: Seq<u8>,
    last: Option<u64>,
    attrs: Attrs,
)
    requires
        code < 8,
        is_payload(code, payload),
        last is Some ==> last->Some_0 < tag,
        tag != attrs.spec_tag(),
    ensures
        read_datum::<A>(field(tag, true, code, payload) + inner, last, attrs) == Err::<
            Reading,
            Error,
        >(Error::UnknownCriticalField),
{
    lemma_unknown_field(tag, true, code, payload, inner, last, attrs.spec_tag());
}

/// A request that meets a field with another tag first, which is not
/// critical, gives what it gives behind that field; the field is passed
/// and folded on the way.
#[verifier::rlimit(50)]
pub proof fn lemma_read_datum_behind<A: Accumulator>(
    tag: u64,
    code: u8,
    payload: Seq<u8>,
    inner: Seq<u8>,
    last: Option<u64>,
    attrs: Attrs,
)
    requires
        code < 8,
        is_payload(code, payload),
        last is Some ==> last->Some_0 < tag,
        tag != attrs.spec_tag(),
    ensures
        read_datum::<A>(field(tag, false, code, payload) + inner, last, attrs) == deferred(
            read_datum::<A>(inner, Some(tag), attrs),
            field(tag, false, code, payload),
        ),
{
    let before = field(tag, false, code, payload);
    let input = before + inner;
    let by = before.len();
    let wanted = attrs.spec_tag();
    let wire_type = attrs.spec_wire_type();
    lemma_unknown_field(tag, false, code, payload, inner, last, wanted);
    if locate(inner, Some(tag), wanted) is Ok {
        let at = locate(inner, Some(tag), wanted)->Ok_0;
        lemma_locate_within(inner, Some(tag), wanted);
        assert(input.skip((by + at.start) as int) =~= inner.skip(at.start as int));
        if read_field(inner, Some(tag), wanted, wire_type) is Ok {
            let span = read_field(inner, Some(tag), wanted, wire_type)->Ok_0;
            lemma_read_field_within(inner, Some(tag), wanted, wire_type);
            assert(read_field(input, last, wanted, wire_type) == Ok::<Span, Error>(
                Span { header: span.header, start: by + span.start, end: by + span.end },
            ));
            assert(input.take((by + span.end) as int) =~= before + inner.take(span.end as int));
            assert(input.take((by + span.start) as int) =~= before + inner.take(
                span.start as int,
            ));
            assert(input.skip(by as int) =~= inner);
            let here = inner.skip(span.start as int);
            let goal = read_datum::<A>(input, last, attrs) == deferred(
                read_datum::<A>(inner, Some(tag), attrs),
                before,
            );
            match wire_type {
                WireType::Bool => {
                    assert(goal);
                },
                WireType::UInt64 => {
                    assert(goal);
                },
                WireType::SInt64 => {
                    assert(goal);
                },
                WireType::Bytes => {
                    lemma_body_behind(input, inner, by, span);
                    assert(goal);
                },
                WireType::String => {
                    lemma_body_behind(input, inner, by, span);
                    assert(goal);
                },
                WireType::Message => {
                    lemma_body_behind(input, inner, by, span);
                    assert(goal);
                },
                WireType::Sequence => {
                    lemma_body_behind(input, inner, by, span);
                    let found = read_sequence(inner, Some(tag), wanted, attrs.spec_bounds());
                    if found is Ok {
                        let hashes = element_hashes::<A>(found->Ok_0.1);
                        assert((before + inner.take(span.start as int)) + hashes =~= before + (
                        inner.take(span.start as int) + hashes));
                    }
                    assert(goal);
                },
            }
        }
    }
}

/// The value of a length-delimited field is the same bytes seen from `by`
/// bytes before the input that holds it.
proof fn lemma_body_behind(input: Seq<u8>, inner: Seq<u8>, by: nat, span: Span)
    requires
        parse_delimiter(inner.skip(span.start as int)) is Ok,
        span.start + parse_delimiter(inner.skip(span.start as int))->Ok_0.0 <= span.end
            <= inner.len(),
        input.len() == by + inner.len(),
        input.skip(by as int) == inner,
    ensures
        ({
            let taken = parse_delimiter(inner.skip(span.start as int))->Ok_0.0;
            input.subrange((by + span.start + taken) as int, (by + span.end) as int)
                == inner.subrange((span.start + taken) as int, span.end as int)
        }),
{
    let taken = parse_delimiter(inner.skip(span.start as int))->Ok_0.0;
    assert(input.subrange((by + span.start + taken) as int, (by + span.end) as int)
        =~= inner.subrange((span.start + taken) as int, span.end as int)) by {
        assert forall|i: int| 0 <= i < inner.len() implies inner[i] == input[by + i] by {
            assert(input.skip(by as int)[i] == input[by + i]);
        }
    }
}

/// Reading a run of fields is reading its first `count` fields and then
/// the others from where those end.
pub proof fn lemma_read_fields_split<A: Accumulator>(
    fields: Seq<Attrs>,
    input: Seq<u8>,
    last: Option<u64>,
    count: nat,
)
    requires
        count <= fields.len(),
    ensures
        read_fields::<A>(fields, input, last) == (match read_fields::<A>(
            fields.take(count as int),
            input,
            last,
        ) {
            Err(e) => Err(e),
            Ok(first) => joined(
                first,
                read_fields::<A>(fields.skip(count as int), input.skip(first.end as int), first.last),
            ),
        }),
    decreases count,
{
    let whole = read_fields::<A>(fields, input, last);
    if count == 0 {
        assert(fields.take(0) =~= Seq::<Attrs>::empty());
        assert(fields.skip(0) =~= fields);
        assert(input.skip(0) =~= input);
        if whole is Ok {
            assert(Seq::<Datum>::empty() + whole->Ok_0.data =~= whole->Ok_0.data);
            assert(Seq::<u8>::empty() + whole->Ok_0.folded =~= whole->Ok_0.folded);
        }
    } else {
        let front = fields.take(count as int);
        assert(front[0] == fields[0]);
        assert(front.skip(1) =~= fields.skip(1).take(count - 1));
        assert(fields.skip(1).skip(count - 1) =~= fields.skip(count as int));
        if read_datum::<A>(input, last, fields[0]) is Ok {
            let first = read_datum::<A>(input, last, fields[0])->Ok_0;
            let tag = fields[0].spec_tag();
            let rest = input.skip(first.end as int);
            lemma_read_fields_split::<A>(fields.skip(1), rest, Some(tag), (count - 1) as nat);
            let middle = read_fields::<A>(fields.skip(1).take(count - 1), rest, Some(tag));
            if middle is Ok {
                let second = middle->Ok_0;
                crate::codec::lemma_reading_within::<A>(input, last, fields[0]);
                assert(rest.skip(second.end as int) =~= input.skip((first.end + second.end) as int))
                    by {
                    lemma_read_fields_within::<A>(fields.skip(1).take(count - 1), rest, Some(tag));
                }
                let others = read_fields::<A>(
                    fields.skip(count as int),
                    rest.skip(second.end as int),
                    second.last,
                );
                if others is Ok {
                    let third = others->Ok_0;
                    assert(seq![first.datum] + (second.data + third.data) =~= (seq![first.datum]
                        + second.data) + third.data);
                    assert(first.folded + (second.folded + third.folded) =~= (first.folded
                        + second.folded) + third.folded);
                }
            }
        }
    }
}

/// A run of fields that was read ends within the input.
pub proof fn lemma_read_fields_within<A: Accumulator>(
    fields: Seq<Attrs>,
    input: Seq<u8>,
    last: Option<u64>,
)
    requires
        read_fields::<A>(fields, input, last) is Ok,
    ensures
        read_fields::<A>(fields, input, last)->Ok_0.end <= input.len(),
    decreases fields.len(),
{
    if fields.len() > 0 {
        let first = read_datum::<A>(input, last, fields[0])->Ok_0;
        crate::codec::lemma_reading_within::<A>(input, last, fields[0]);
        lemma_read_fields_within::<A>(
            fields.skip(1),
            input.skip(first.end as int),
            Some(fields[0].spec_tag()),
        );
    }
}

/// A run of fields behind a field that is not asked for, whose tag lies
/// between the tag before and the first tag of the run: where that field
/// is critical, reading the run fails; where it is not, the run is read as
/// without it, and the field is passed on the way.
pub proof fn lemma_read_fields_behind<A: Accumulator>(
    fields: Seq<Attrs>,
    data: Seq<Datum>,
    tag: u64,
    critical: bool,
    code: u8,
    payload: Seq<u8>,
    rest: Seq<u8>,
    last: Option<u64>,
)
    requires
        ascending(fields),
        all_suit(fields, data),
        fields.len() > 0,
        code < 8,
        is_payload(code, payload),
        last is Some ==> last->Some_0 < tag,
        tag < fields[0].spec_tag(),
    ensures
        ({
            let unknown = field(tag, critical, code, payload);
            let found = read_fields::<A>(
                fields,
                unknown + (fields_encoding(fields, data) + rest),
                last,
            );
            if critical {
                found == Err::<Outcome, Error>(Error::UnknownCriticalField)
            } else {
                &&& found matches Ok(outcome)
                &&& outcome.data == data
                &&& outcome.end == unknown.len() + fields_encoding(fields, data).len()
                &&& outcome.last == Some(fields.last().spec_tag())
                &&& outcome.folded == unknown + fields_folding::<A>(fields, data)
            }
        }),
{
    let unknown = field(tag, critical, code, payload);
    let inner = fields_encoding(fields, data) + rest;
    let attrs = fields[0];
    if critical {
        lemma_read_datum_at_critical::<A>(tag, code, payload, inner, last, attrs);
    } else {
        lemma_read_fields_passing::<A>(fields, data, tag, code, payload, rest, last);
    }
}

/// A run of fields behind a field that is not asked for and not critical
/// is read as without it, and the field is passed on the way.
#[verifier::spinoff_prover]
#[verifier::rlimit(100)]
proof fn lemma_read_fields_passing<A: Accumulator>(
    fields: Seq<Attrs>,
    data: Seq<Datum>,
    tag: u64,
    code: u8,
    payload: Seq<u8>,
    rest: Seq<u8>,
    last: Option<u64>,
)
    requires
        ascending(fields),
        all_suit(fields, data),
        fields.len() > 0,
        code < 8,
        is_payload(code, payload),
        last is Some ==> last->Some_0 < tag,
        tag < fields[0].spec_tag(),
    ensures
        read_fields::<A>(
            fields,
            field(tag, false, code, payload) + (fields_encoding(fields, data) + rest),
            last,
        ) == Ok::<Outcome, Error>(
            Outcome {
                data,
                end: field(tag, false, code, payload).len() + fields_encoding(fields, data).len(),
                folded: field(tag, false, code, payload) + fields_folding::<A>(fields, data),
                last: Some(fields.last().spec_tag()),
            },
        ),
{
    let unknown = field(tag, false, code, payload);
    let attrs = fields[0];
    let first = data[0].field(attrs.spec_tag(), attrs.spec_is_critical());
    let others = fields_encoding(fields.skip(1), data.skip(1));
    let inner = fields_encoding(fields, data) + rest;
    let input = unknown + inner;
    lemma_fields_encoding_front(fields, data);
    assert(inner =~= first + (others + rest));
    lemma_read_datum_behind::<A>(tag, code, payload, inner, last, attrs);
    lemma_read_datum_of::<A>(attrs, data[0], others + rest, Some(tag));
    let reading = read_datum::<A>(input, last, attrs);
    assert(reading == Ok::<Reading, Error>(
        Reading {
            datum: data[0],
            end: unknown.len() + first.len(),
            folded: unknown + folding::<A>(data[0], attrs.spec_tag(), attrs.spec_is_critical()),
        },
    ));
    assert(input.skip((unknown.len() + first.len()) as int) =~= others + rest);
    lemma_ascending_parts(fields, 1);
    lemma_all_suit_parts(fields, data, 1);
    if fields.len() > 1 {
        assert(fields[0].spec_tag() < fields[1].spec_tag());
        assert(fields.skip(1).last() == fields.last());
    }
    lemma_read_fields_of::<A>(fields.skip(1), data.skip(1), rest, Some(attrs.spec_tag()));
    let tail = read_fields::<A>(fields.skip(1), others + rest, Some(attrs.spec_tag()))->Ok_0;
    assert(seq![data[0]] + data.skip(1) =~= data);
    assert((unknown + folding::<A>(data[0], attrs.spec_tag(), attrs.spec_is_critical()))
        + tail.folded =~= unknown + fields_folding::<A>(fields, data));
}

/// The encoding of a structure with one more field, `unknown`, behind the
/// first `place` of its fields.
pub open spec fn with_unknown(
    fields: Seq<Attrs>,
    data: Seq<Datum>,
    place: nat,
    unknown: Seq<u8>,
) -> Seq<u8> {
    fields_encoding(fields.take(place as int), data.take(place as int)) + (unknown
        + fields_encoding(fields.skip(place as int), data.skip(place as int)))
}

/// A run of fields with a field that is not asked for among them, in
/// valid tag order and before the last of the run: where that field is
/// critical, reading the run fails; where it is not, the run is read as
/// without it.
#[verifier::spinoff_prover]
#[verifier::rlimit(100)]
pub proof fn lemma_read_fields_around<A: Accumulator>(
    fields: Seq<Attrs>,
    data: Seq<Datum>,
    place: nat,
    tag: u64,
    critical: bool,
    code: u8,
    payload: Seq<u8>,
    rest: Seq<u8>,
    last: Option<u64>,
)
    requires
        ascending(fields),
        all_suit(fields, data),
        place < fields.len(),
        code < 8,
        is_payload(code, payload),
        last is Some && fields.len() > 0 ==> last->Some_0 < fields[0].spec_tag(),
        place == 0 && last is Some ==> last->Some_0 < tag,
        place > 0 ==> fields[place - 1].spec_tag() < tag,
        tag < fields[place as int].spec_tag(),
    ensures
        ({
            let unknown = field(tag, critical, code, payload);
            let found = read_fields::<A>(
                fields,
                with_unknown(fields, data, place, unknown) + rest,
                last,
            );
            if critical {
                found == Err::<Outcome, Error>(Error::UnknownCriticalField)
            } else {
                &&& found matches Ok(outcome)
                &&& outcome.data == data
                &&& outcome.end == with_unknown(fields, data, place, unknown).len()
                &&& outcome.last == Some(fields.last().spec_tag())
            }
        }),
{
    let unknown = field(tag, critical, code, payload);
    let front_fields = fields.take(place as int);
    let front_data = data.take(place as int);
    let back_fields = fields.skip(place as int);
    let back_data = data.skip(place as int);
    let front = fields_encoding(front_fields, front_data);
    let back = fields_encoding(back_fields, back_data);
    let input = with_unknown(fields, data, place, unknown) + rest;
    let behind = unknown + (back + rest);
    assert(input == front + behind) by {
        assert(input =~= front + behind);
    }
    lemma_ascending_parts(fields, place);
    lemma_all_suit_parts(fields, data, place);
    lemma_read_fields_of::<A>(front_fields, front_data, behind, last);
    let first = read_fields::<A>(front_fields, input, last)->Ok_0;
    assert(first.end == front.len());
    assert(input.skip(first.end as int) == behind) by {
        assert(input.skip(front.len() as int) =~= behind);
    }
    assert(first.last is Some ==> first.last->Some_0 < tag) by {
        if place > 0 {
            assert(front_fields.last() == fields[place - 1]);
        }
    }
    assert(back_fields[0] == fields[place as int]);
    assert(back_fields.last() == fields.last());
    lemma_read_fields_behind::<A>(
        back_fields,
        back_data,
        tag,
        critical,
        code,
        payload,
        rest,
        first.last,
    );
    let second = read_fields::<A>(back_fields, behind, first.last);
    lemma_read_fields_split::<A>(fields, input, last, place);
    assert(read_fields::<A>(fields, input, last) == joined(first, second));
    if !critical {
        assert(first.data + second->Ok_0.data == data) by {
            assert(front_data + back_data =~= data);
        }
        assert(with_unknown(fields, data, place, unknown).len() == front.len() + unknown.len()
            + back.len());
    }
}

/// What decoding a structure with one more field gives, where the
/// definition does not know that field: where the field is critical,
/// `UnknownCriticalField`; where it is not, what the fields hold, as
/// without it, and where it stands behind the digest's place, the digest as
/// without it, too.
pub open spec fn reads_around<A: Accumulator>(
    fields: Seq<Attrs>,
    digest_at: Option<nat>,
    data: Seq<Datum>,
    place: nat,
    critical: bool,
    unknown: Seq<u8>,
) -> bool {
    let found = read_struct::<A>(fields, digest_at, with_unknown(fields, data, place, unknown));
    if critical {
        found == Err::<Decoded, Error>(Error::UnknownCriticalField)
    } else {
        &&& found matches Ok(decoded)
        &&& decoded.data == data
        &&& digest_at is None ==> decoded.digest is None
        &&& (digest_at is Some && digest_at->Some_0 <= place) ==> decoded.digest == Some(
            A::hash(
                fields_folding::<A>(
                    fields.take(digest_at->Some_0 as int),
                    data.take(digest_at->Some_0 as int),
                ),
            ),
        )
    }
}

/// Where the digest stands, or behind the last field where there is none.
pub open spec fn digest_place(fields: Seq<Attrs>, digest_at: Option<nat>) -> nat {
    match digest_at {
        Some(at) => at,
        None => fields.len(),
    }
}

/// Critical fields in a structure. Take the encoding of a structure and
/// put one more field into it, in valid tag order, that the definition does
/// not know. Where that field is critical, decoding fails with
/// `UnknownCriticalField`. Where it is not, decoding gives what the fields
/// hold, as without it; and where it stands behind the digest's place, the
/// digest is as without it, too.
pub proof fn lemma_struct_with_unknown<A: Accumulator>(
    fields: Seq<Attrs>,
    digest_at: Option<nat>,
    data: Seq<Datum>,
    place: nat,
    tag: u64,
    critical: bool,
    code: u8,
    payload: Seq<u8>,
)
    requires
        ascending(fields),
        all_suit(fields, data),
        digest_at is Some ==> digest_at->Some_0 <= fields.len(),
        place <= fields.len(),
        code < 8,
        is_payload(code, payload),
        place > 0 ==> fields[place - 1].spec_tag() < tag,
        place < fields.len() ==> tag < fields[place as int].spec_tag(),
    ensures
        reads_around::<A>(
            fields,
            digest_at,
            data,
            place,
            critical,
            field(tag, critical, code, payload),
        ),
{
    let at = digest_place(fields, digest_at);
    if place < at {
        lemma_struct_unknown_before::<A>(fields, digest_at, data, place, tag, critical, code, payload);
    } else if place < fields.len() {
        lemma_struct_unknown_behind::<A>(fields, digest_at, data, place, tag, critical, code, payload);
    } else {
        lemma_struct_unknown_last::<A>(fields, digest_at, data, tag, critical, code, payload);
    }
}

/// The parts of a run of fields, by index.
proof fn lemma_parts(fields: Seq<Attrs>, data: Seq<Datum>, at: nat, place: nat)
    requires
        fields.len() == data.len(),
        at <= fields.len(),
        place <= fields.len(),
    ensures
        data.take(at as int) + data.skip(at as int) == data,
        place <= at ==> {
            &&& fields.skip(place as int).take(at - place) == fields.take(at as int).skip(
                place as int,
            )
            &&& data.skip(place as int).take(at - place) == data.take(at as int).skip(place as int)
            &&& fields.skip(place as int).skip(at - place) == fields.skip(at as int)
            &&& data.skip(place as int).skip(at - place) == data.skip(at as int)
            &&& fields.take(at as int).take(place as int) == fields.take(place as int)
            &&& data.take(at as int).take(place as int) == data.take(place as int)
        },
        at <= place ==> {
            &&& fields.take(place as int).take(at as int) == fields.take(at as int)
            &&& data.take(place as int).take(at as int) == data.take(at as int)
            &&& fields.take(place as int).skip(at as int) == fields.skip(at as int).take(
                place - at,
            )
            &&& data.take(place as int).skip(at as int) == data.skip(at as int).take(place - at)
            &&& fields.skip(at as int).skip(place - at) == fields.skip(place as int)
            &&& data.skip(at as int).skip(place - at) == data.skip(place as int)
        },
{
    assert(data.take(at as int) + data.skip(at as int) =~= data);
    if place <= at {
        assert(fields.skip(place as int).take(at - place) =~= fields.take(at as int).skip(
            place as int,
        ));
        assert(data.skip(place as int).take(at - place) =~= data.take(at as int).skip(
            place as int,
        ));
        assert(fields.skip(place as int).skip(at - place) =~= fields.skip(at as int));
        assert(data.skip(place as int).skip(at - place) =~= data.skip(at as int));
        assert(fields.take(at as int).take(place as int) =~= fields.take(place as int));
        assert(data.take(at as int).take(place as int) =~= data.take(place as int));
    }
    if at <= place {
        assert(fields.take(place as int).take(at as int) =~= fields.take(at as int));
        assert(data.take(place as int).take(at as int) =~= data.take(at as int));
        assert(fields.take(place as int).skip(at as int) =~= fields.skip(at as int).take(
            place - at,
        ));
        assert(data.take(place as int).skip(at as int) =~= data.skip(at as int).take(place - at));
        assert(fields.skip(at as int).skip(place - at) =~= fields.skip(place as int));
        assert(data.skip(at as int).skip(place - at) =~= data.skip(place as int));
    }
}

/// With the field that is not known among the fields before the digest,
/// the input is those fields with that field among them, and then the
/// others.
proof fn lemma_before_input(
    fields: Seq<Attrs>,
    data: Seq<Datum>,
    at: nat,
    place: nat,
    unknown: Seq<u8>,
)
    requires
        fields.len() == data.len(),
        place < at <= fields.len(),
    ensures
        with_unknown(fields, data, place, unknown) == with_unknown(
            fields.take(at as int),
            data.take(at as int),
            place,
            unknown,
        ) + fields_encoding(fields.skip(at as int), data.skip(at as int)),
{
    lemma_parts(fields, data, at, place);
    lemma_fields_encoding_split(
        fields.skip(place as int),
        data.skip(place as int),
        (at - place) as nat,
    );
    let front = with_unknown(fields.take(at as int), data.take(at as int), place, unknown);
    let back = fields_encoding(fields.skip(at as int), data.skip(at as int));
    assert(with_unknown(fields, data, place, unknown) =~= front + back);
}

/// With the field that is not known among the fields before the digest,
/// reading those fields fails where it is critical, and is as without it
/// where it is not.
#[verifier::spinoff_prover]
proof fn lemma_before_head<A: Accumulator>(
    fields: Seq<Attrs>,
    data: Seq<Datum>,
    at: nat,
    place: nat,
    tag: u64,
    critical: bool,
    code: u8,
    payload: Seq<u8>,
)
    requires
        ascending(fields),
        all_suit(fields, data),
        place < at <= fields.len(),
        code < 8,
        is_payload(code, payload),
        place > 0 ==> fields[place - 1].spec_tag() < tag,
        tag < fields[place as int].spec_tag(),
    ensures
        ({
            let unknown = field(tag, critical, code, payload);
            let front = with_unknown(fields.take(at as int), data.take(at as int), place, unknown);
            let found = read_fields::<A>(
                fields.take(at as int),
                with_unknown(fields, data, place, unknown),
                None,
            );
            if critical {
                found == Err::<Outcome, Error>(Error::UnknownCriticalField)
            } else {
                &&& found matches Ok(head)
                &&& head.data == data.take(at as int)
                &&& head.end == front.len()
                &&& head.last == Some(fields[at - 1].spec_tag())
                &&& with_unknown(fields, data, place, unknown).skip(head.end as int)
                    == fields_encoding(fields.skip(at as int), data.skip(at as int))
            }
        }),
{
    let unknown = field(tag, critical, code, payload);
    let head_fields = fields.take(at as int);
    let head_data = data.take(at as int);
    let back = fields_encoding(fields.skip(at as int), data.skip(at as int));
    let front = with_unknown(head_fields, head_data, place, unknown);
    lemma_before_input(fields, data, at, place, unknown);
    lemma_ascending_parts(fields, at);
    lemma_all_suit_parts(fields, data, at);
    if place > 0 {
        assert(head_fields[place - 1] == fields[place - 1]);
    }
    assert(head_fields[place as int] == fields[place as int]);
    assert(head_fields.last() == fields[at - 1]);
    lemma_read_fields_around::<A>(
        head_fields,
        head_data,
        place,
        tag,
        critical,
        code,
        payload,
        back,
        None,
    );
    assert((front + back).skip(front.len() as int) =~= back);
}

/// Where reading the fields before the digest fails, decoding fails with
/// it.
proof fn lemma_struct_fails_first<A: Accumulator>(
    fields: Seq<Attrs>,
    digest_at: Option<nat>,
    input: Seq<u8>,
    e: Error,
)
    requires
        read_fields::<A>(fields.take(digest_place(fields, digest_at) as int), input, None) == Err::<
            Outcome,
            Error,
        >(e),
    ensures
        read_struct::<A>(fields, digest_at, input) == Err::<Decoded, Error>(e),
{
}

/// Where both runs of fields are read and what is left is passed,
/// decoding gives what they hold, and the digest of what the first folds.
proof fn lemma_struct_succeeds<A: Accumulator>(
    fields: Seq<Attrs>,
    digest_at: Option<nat>,
    input: Seq<u8>,
    head: Outcome,
    tail: Outcome,
)
    requires
        read_fields::<A>(fields.take(digest_place(fields, digest_at) as int), input, None) == Ok::<
            Outcome,
            Error,
        >(head),
        read_fields::<A>(
            fields.skip(digest_place(fields, digest_at) as int),
            input.skip(head.end as int),
            head.last,
        ) == Ok::<Outcome, Error>(tail),
        skip_rest(input.skip((head.end + tail.end) as int), tail.last) == Ok::<(), Error>(()),
    ensures
        read_struct::<A>(fields, digest_at, input) == Ok::<Decoded, Error>(
            Decoded {
                data: head.data + tail.data,
                digest: if digest_at is Some {
                    Some(A::hash(head.folded))
                } else {
                    None
                },
            },
        ),
{
}

/// The field that is not known stands among the fields before the digest.
#[verifier::spinoff_prover]
#[verifier::rlimit(100)]
proof fn lemma_struct_unknown_before<A: Accumulator>(
    fields: Seq<Attrs>,
    digest_at: Option<nat>,
    data: Seq<Datum>,
    place: nat,
    tag: u64,
    critical: bool,
    code: u8,
    payload: Seq<u8>,
)
    requires
        ascending(fields),
        all_suit(fields, data),
        digest_at is Some ==> digest_at->Some_0 <= fields.len(),
        place < digest_place(fields, digest_at),
        code < 8,
        is_payload(code, payload),
        place > 0 ==> fields[place - 1].spec_tag() < tag,
        tag < fields[place as int].spec_tag(),
    ensures
        reads_around::<A>(
            fields,
            digest_at,
            data,
            place,
            critical,
            field(tag, critical, code, payload),
        ),
{
    let at = digest_place(fields, digest_at);
    let unknown = field(tag, critical, code, payload);
    let input = with_unknown(fields, data, place, unknown);
    lemma_before_head::<A>(fields, data, at, place, tag, critical, code, payload);
    if critical {
        lemma_struct_fails_first::<A>(fields, digest_at, input, Error::UnknownCriticalField);
    } else {
        let head = read_fields::<A>(fields.take(at as int), input, None)->Ok_0;
        lemma_read_fields_within::<A>(fields.take(at as int), input, None);
        lemma_tail_behind::<A>(fields, data, at, input, head);
        let tail = read_fields::<A>(fields.skip(at as int), input.skip(head.end as int), head.last)->Ok_0;
        lemma_struct_succeeds::<A>(fields, digest_at, input, head, tail);
        assert(head.data + tail.data == data) by {
            assert(data.take(at as int) + data.skip(at as int) =~= data);
        }
    }
}

/// Behind the fields before the digest, read up to where the others
/// start, the others are read as what they hold, and nothing is left.
proof fn lemma_tail_behind<A: Accumulator>(
    fields: Seq<Attrs>,
    data: Seq<Datum>,
    at: nat,
    input: Seq<u8>,
    head: Outcome,
)
    requires
        ascending(fields),
        all_suit(fields, data),
        0 < at <= fields.len(),
        head.end <= input.len(),
        head.last == Some(fields[at - 1].spec_tag()),
        input.skip(head.end as int) == fields_encoding(fields.skip(at as int), data.skip(at as int)),
    ensures
        read_fields::<A>(fields.skip(at as int), input.skip(head.end as int), head.last) matches Ok(
            tail,
        ) && tail.data == data.skip(at as int) && skip_rest(
            input.skip((head.end + tail.end) as int),
            tail.last,
        ) == Ok::<(), Error>(()),
{
    let tail_fields = fields.skip(at as int);
    let tail_data = data.skip(at as int);
    let back = fields_encoding(tail_fields, tail_data);
    lemma_ascending_parts(fields, at);
    lemma_all_suit_parts(fields, data, at);
    assert(back + Seq::<u8>::empty() =~= back);
    lemma_read_fields_of::<A>(tail_fields, tail_data, Seq::empty(), head.last);
    let tail = read_fields::<A>(tail_fields, input.skip(head.end as int), head.last)->Ok_0;
    assert(input.skip((head.end + tail.end) as int) =~= Seq::<u8>::empty()) by {
        assert(input.skip(head.end as int).skip(tail.end as int) =~= input.skip(
            (head.end + tail.end) as int,
        ));
    }
}

/// The field that is not known stands behind the digest's place and
/// before the last field.
#[verifier::spinoff_prover]
#[verifier::rlimit(100)]
proof fn lemma_struct_unknown_behind<A: Accumulator>(
    fields: Seq<Attrs>,
    digest_at: Option<nat>,
    data: Seq<Datum>,
    place: nat,
    tag: u64,
    critical: bool,
    code: u8,
    payload: Seq<u8>,
)
    requires
        ascending(fields),
        all_suit(fields, data),
        digest_at is Some ==> digest_at->Some_0 <= fields.len(),
        digest_place(fields, digest_at) <= place < fields.len(),
        code < 8,
        is_payload(code, payload),
        place > 0 ==> fields[place - 1].spec_tag() < tag,
        tag < fields[place as int].spec_tag(),
    ensures
        reads_around::<A>(
            fields,
            digest_at,
            data,
            place,
            critical,
            field(tag, critical, code, payload),
        ),
{
    let at = digest_place(fields, digest_at);
    let between = (place - at) as nat;
    let unknown = field(tag, critical, code, payload);
    let input = with_unknown(fields, data, place, unknown);
    let head_fields = fields.take(at as int);
    let head_data = data.take(at as int);
    let tail_fields = fields.skip(at as int);
    let tail_data = data.skip(at as int);
    let front = fields_encoding(head_fields, head_data);
    let behind = with_unknown(tail_fields, tail_data, between, unknown);
    lemma_ascending_parts(fields, at);
    lemma_all_suit_parts(fields, data, at);
    lemma_parts(fields, data, at, place);
    lemma_fields_encoding_split(fields.take(place as int), data.take(place as int), at);
    assert(input =~= front + behind);
    lemma_read_fields_of::<A>(head_fields, head_data, behind, None);
    let head = read_fields::<A>(head_fields, input, None)->Ok_0;
    assert(input.skip(head.end as int) =~= behind + Seq::<u8>::empty());
    if at > 0 {
        assert(head_fields.last() == fields[at - 1]);
        assert(fields[at - 1].spec_tag() < fields[at as int].spec_tag());
    }
    assert(tail_fields[0] == fields[at as int]);
    assert(tail_fields[between as int] == fields[place as int]);
    if between > 0 {
        assert(tail_fields[between - 1] == fields[place - 1]);
    }
    lemma_read_fields_around::<A>(
        tail_fields,
        tail_data,
        between,
        tag,
        critical,
        code,
        payload,
        Seq::empty(),
        head.last,
    );
    if !critical {
        let tail = read_fields::<A>(tail_fields, input.skip(head.end as int), head.last)->Ok_0;
        assert(input.skip((head.end + tail.end) as int) =~= Seq::<u8>::empty());
        assert(skip_rest(Seq::<u8>::empty(), tail.last) == Ok::<(), Error>(()));
    }
}

/// The field that is not known stands behind the last field.
#[verifier::spinoff_prover]
#[verifier::rlimit(100)]
proof fn lemma_struct_unknown_last<A: Accumulator>(
    fields: Seq<Attrs>,
    digest_at: Option<nat>,
    data: Seq<Datum>,
    tag: u64,
    critical: bool,
    code: u8,
    payload: Seq<u8>,
)
    requires
        ascending(fields),
        all_suit(fields, data),
        digest_at is Some ==> digest_at->Some_0 <= fields.len(),
        code < 8,
        is_payload(code, payload),
        fields.len() > 0 ==> fields.last().spec_tag() < tag,
    ensures
        reads_around::<A>(
            fields,
            digest_at,
            data,
            fields.len(),
            critical,
            field(tag, critical, code, payload),
        ),
{
    let at = digest_place(fields, digest_at);
    let place = fields.len();
    let unknown = field(tag, critical, code, payload);
    let input = with_unknown(fields, data, place, unknown);
    let whole = fields_encoding(fields, data);
    assert(fields.take(place as int) =~= fields);
    assert(data.take(place as int) =~= data);
    assert(fields_encoding(fields.skip(place as int), data.skip(place as int)) =~= Seq::<
        u8,
    >::empty());
    assert(input =~= whole + unknown);
    lemma_struct_parts_before::<A>(fields, data, at, unknown);
    let head = read_fields::<A>(fields.take(at as int), input, None)->Ok_0;
    let tail = read_fields::<A>(fields.skip(at as int), input.skip(head.end as int), head.last)->Ok_0;
    let other: u64 = if tag == 0 {
        1
    } else {
        0
    };
    assert(unknown + Seq::<u8>::empty() =~= unknown);
    lemma_unknown_field(tag, critical, code, payload, Seq::empty(), tail.last, other);
}

/// The two runs of fields of a structure are read back as what they hold
/// whatever follows them, and what follows is left.
#[verifier::spinoff_prover]
#[verifier::rlimit(100)]
proof fn lemma_struct_parts_before<A: Accumulator>(
    fields: Seq<Attrs>,
    data: Seq<Datum>,
    at: nat,
    rest: Seq<u8>,
)
    requires
        ascending(fields),
        all_suit(fields, data),
        at <= fields.len(),
    ensures
        ({
            let input = fields_encoding(fields, data) + rest;
            let head = read_fields::<A>(fields.take(at as int), input, None);
            &&& head matches Ok(first) && first.data == data.take(at as int) && first.folded
                == fields_folding::<A>(fields.take(at as int), data.take(at as int)) && first.end
                <= input.len() && (read_fields::<A>(
                fields.skip(at as int),
                input.skip(first.end as int),
                first.last,
            ) matches Ok(second) && second.data == data.skip(at as int) && first.data
                + second.data == data && input.skip((first.end + second.end) as int) == rest
                && second.last == (if fields.len() == 0 {
                None::<u64>
            } else {
                Some(fields.last().spec_tag())
            }))
        }),
{
    let input = fields_encoding(fields, data) + rest;
    let front = fields_encoding(fields.take(at as int), data.take(at as int));
    let back = fields_encoding(fields.skip(at as int), data.skip(at as int));
    lemma_fields_encoding_split(fields, data, at);
    lemma_ascending_parts(fields, at);
    lemma_all_suit_parts(fields, data, at);
    assert(input =~= front + (back + rest));
    lemma_read_fields_of::<A>(fields.take(at as int), data.take(at as int), back + rest, None);
    let head = read_fields::<A>(fields.take(at as int), input, None)->Ok_0;
    assert(input.skip(head.end as int) =~= back + rest);
    if at > 0 {
        assert(fields.take(at as int).last() == fields[at - 1]);
    }
    if at < fields.len() {
        assert(fields.skip(at as int).last() == fields.last());
    }
    lemma_read_fields_of::<A>(fields.skip(at as int), data.skip(at as int), rest, head.last);
    let tail = read_fields::<A>(fields.skip(at as int), input.skip(head.end as int), head.last)->Ok_0;
    assert(input.skip((head.end + tail.end) as int) =~= rest);
    assert(data.take(at as int) + data.skip(at as int) =~= data);
}

} // verus!
