//! The wire format, as mathematics: what the encoding of each kind of field
//! is, and what a reader finds at the front of a byte string.
//!
//! A message is its fields, one after the other, in strictly ascending tag
//! order. A field is a header and a value:
//!
//! | wire type | code | value                                              |
//! |-----------|------|----------------------------------------------------|
//! | bool      | 0, 1 | none: the code is the value, `false` or `true`     |
//! | uint64    | 2    | the integer, in variable length                    |
//! | sint64    | 3    | the zigzag form of the integer, in variable length |
//! | bytes     | 4    | the length, then the bytes                         |
//! | string    | 5    | the length in bytes, then the text in UTF-8        |
//! | message   | 6    | the length, then the encoding of the message       |
//! | sequence  | 7    | the length, then the code of the elements' wire    |
//! |           |      | type, then each element behind its own length      |
//!
//! A reader asks for one field after the other by tag. On its way to the
//! field asked for it passes fields with other tags, if they are not
//! critical, by their own length.

use vstd::prelude::*;
use vstd::utf8::{encode_utf8, valid_utf8};
use crate::error::Error;
use crate::field::{SizeBounds, WireType};
use crate::header::{
    header_bytes, parse_header, Header, CODE_BYTES, CODE_FALSE, CODE_MESSAGE, CODE_SEQUENCE,
    CODE_SINT64, CODE_STRING, CODE_TRUE, CODE_UINT64,
};
use crate::message::Element;
use crate::vint64::{parse_vint, vint};
use crate::zigzag::{unzigzag, zigzag};

verus! {

/// `body` behind its length.
pub open spec fn delimited(body: Seq<u8>) -> Seq<u8> {
    vint(body.len() as u64) + body
}

/// A field: its header, then the bytes of its value.
pub open spec fn field(tag: u64, critical: bool, code: u8, payload: Seq<u8>) -> Seq<u8> {
    header_bytes(Header { tag, code, critical }) + payload
}

/// A boolean field. The value is in the header; there are no value bytes.
pub open spec fn bool_field(tag: u64, critical: bool, value: bool) -> Seq<u8> {
    field(
        tag,
        critical,
        if value {
            CODE_TRUE
        } else {
            CODE_FALSE
        },
        Seq::empty(),
    )
}

/// An unsigned integer field.
pub open spec fn uint64_field(tag: u64, critical: bool, value: u64) -> Seq<u8> {
    field(tag, critical, CODE_UINT64, vint(value))
}

/// A signed integer field.
pub open spec fn sint64_field(tag: u64, critical: bool, value: i64) -> Seq<u8> {
    field(tag, critical, CODE_SINT64, vint(zigzag(value)))
}

/// A field of binary data.
pub open spec fn bytes_field(tag: u64, critical: bool, value: Seq<u8>) -> Seq<u8> {
    field(tag, critical, CODE_BYTES, delimited(value))
}

/// A string field.
pub open spec fn string_field(tag: u64, critical: bool, value: Seq<char>) -> Seq<u8> {
    field(tag, critical, CODE_STRING, delimited(encode_utf8(value)))
}

/// A field that holds a nested message, given by its encoding.
pub open spec fn message_field(tag: u64, critical: bool, body: Seq<u8>) -> Seq<u8> {
    field(tag, critical, CODE_MESSAGE, delimited(body))
}

/// The elements of a sequence one after the other, each behind its length.
pub open spec fn elements_bytes(elements: Seq<Seq<u8>>) -> Seq<u8>
    decreases elements.len(),
{
    if elements.len() == 0 {
        Seq::empty()
    } else {
        elements_bytes(elements.drop_last()) + delimited(elements.last())
    }
}

/// What a sequence field holds behind its length: the code of its elements'
/// wire type, then the elements.
pub open spec fn sequence_body(elements: Seq<Seq<u8>>) -> Seq<u8> {
    seq![CODE_MESSAGE] + elements_bytes(elements)
}

/// A field that holds a sequence of messages, each given by its encoding.
pub open spec fn sequence_field(tag: u64, critical: bool, elements: Seq<Seq<u8>>) -> Seq<u8> {
    field(tag, critical, CODE_SEQUENCE, delimited(sequence_body(elements)))
}

/// Reads a length and checks that as many bytes follow it: the number of
/// bytes that the length takes, and the length.
pub open spec fn parse_delimiter(input: Seq<u8>) -> Result<(nat, nat), Error> {
    match parse_vint(input, Element::LengthDelimiter) {
        Err(e) => Err(e),
        Ok((len, taken)) => {
            if input.len() - taken < len {
                Err(Error::TruncatedInput { element: Element::Value })
            } else {
                Ok((taken, len as nat))
            }
        },
    }
}

/// A length that was read takes at least one byte, and the bytes that it
/// counts lie within the input.
pub proof fn lemma_delimiter_bound(input: Seq<u8>)
    requires
        parse_delimiter(input) is Ok,
    ensures
        1 <= parse_delimiter(input)->Ok_0.0,
        parse_delimiter(input)->Ok_0.0 + parse_delimiter(input)->Ok_0.1 <= input.len(),
{
    crate::vint64::lemma_vint_of_parse_vint(input, Element::LengthDelimiter);
}

/// Number of bytes that the value of a field with wire-type code `code`
/// takes at the front of `input`.
pub open spec fn value_extent(code: u8, input: Seq<u8>) -> Result<nat, Error> {
    if code <= CODE_TRUE {
        Ok(0)
    } else if code <= CODE_SINT64 {
        match parse_vint(input, Element::Value) {
            Err(e) => Err(e),
            Ok((_, taken)) => Ok(taken),
        }
    } else {
        match parse_delimiter(input) {
            Err(e) => Err(e),
            Ok((taken, len)) => Ok(taken + len),
        }
    }
}

/// Where a requested field is.
pub struct Located {
    /// Number of bytes before the field's header: the fields skipped.
    pub offset: nat,
    /// The field's header.
    pub header: Header,
    /// Where the field's value starts.
    pub start: nat,
}

/// A result of `locate` on a suffix, seen from `by` bytes before it.
pub open spec fn shifted(found: Result<Located, Error>, by: nat) -> Result<Located, Error> {
    match found {
        Err(e) => Err(e),
        Ok(at) => Ok(Located { offset: by + at.offset, header: at.header, start: by + at.start }),
    }
}

/// The next header, whose tag has to be above `last`: the header and the
/// number of bytes it takes.
pub open spec fn heading(input: Seq<u8>, last: Option<u64>) -> Result<(Header, nat), Error> {
    match parse_header(input) {
        Err(e) => Err(e),
        Ok((header, header_len)) => {
            if last is Some && header.tag <= last->Some_0 {
                Err(Error::TagOutOfOrder)
            } else {
                Ok((header, header_len))
            }
        },
    }
}

/// Number of bytes, header and value, of a field at the front of `input`
/// that is not asked for. It must not be critical.
pub open spec fn passed(input: Seq<u8>, header: Header, header_len: nat) -> Result<nat, Error> {
    if header.critical {
        Err(Error::UnknownCriticalField)
    } else {
        match value_extent(header.code, input.skip(header_len as int)) {
            Err(e) => Err(e),
            Ok(extent) => Ok(header_len + extent),
        }
    }
}

/// A value that is complete lies within the input.
pub proof fn lemma_value_extent_bound(code: u8, input: Seq<u8>)
    requires
        value_extent(code, input) is Ok,
    ensures
        value_extent(code, input)->Ok_0 <= input.len(),
{
    if code > CODE_TRUE {
        if code <= CODE_SINT64 {
            crate::vint64::lemma_vint_of_parse_vint(input, Element::Value);
        } else {
            crate::vint64::lemma_vint_of_parse_vint(input, Element::LengthDelimiter);
        }
    }
}

/// A field that can be passed has at least two bytes and lies within the
/// input.
pub proof fn lemma_passed_bound(input: Seq<u8>, last: Option<u64>)
    requires
        heading(input, last) is Ok,
        passed(input, heading(input, last)->Ok_0.0, heading(input, last)->Ok_0.1) is Ok,
    ensures
        2 <= passed(input, heading(input, last)->Ok_0.0, heading(input, last)->Ok_0.1)->Ok_0
            <= input.len(),
{
    let (header, header_len) = heading(input, last)->Ok_0;
    crate::header::lemma_bytes_of_parse_header(input);
    crate::header::lemma_header_len(header);
    lemma_value_extent_bound(header.code, input.skip(header_len as int));
}

/// Looks for the field with tag `tag`, starting at the front of `input` with
/// `last` the tag of the field before it, if there was one.
///
/// Every header on the way must have a tag above the one before it. A field
/// with another tag is skipped by its own length, unless it is critical.
pub open spec fn locate(input: Seq<u8>, last: Option<u64>, tag: u64) -> Result<Located, Error>
    decreases input.len(),
{
    match heading(input, last) {
        Err(e) => Err(e),
        Ok((header, header_len)) => {
            if header.tag == tag {
                Ok(Located { offset: 0, header, start: header_len })
            } else {
                match passed(input, header, header_len) {
                    Err(e) => Err(e),
                    Ok(skipped) => {
                        proof {
                            lemma_passed_bound(input, last);
                        }
                        shifted(
                            locate(input.skip(skipped as int), Some(header.tag), tag),
                            skipped,
                        )
                    },
                }
            }
        },
    }
}

/// With `gone` bytes of `all` behind it, a search that passes one more field
/// goes on behind that field.
pub proof fn lemma_locate_passes(
    all: Seq<u8>,
    first: Option<u64>,
    tag: u64,
    gone: nat,
    last: Option<u64>,
)
    requires
        gone <= all.len(),
        locate(all, first, tag) == shifted(locate(all.skip(gone as int), last, tag), gone),
        heading(all.skip(gone as int), last) is Ok,
        heading(all.skip(gone as int), last)->Ok_0.0.tag != tag,
        passed(
            all.skip(gone as int),
            heading(all.skip(gone as int), last)->Ok_0.0,
            heading(all.skip(gone as int), last)->Ok_0.1,
        ) is Ok,
    ensures
        ({
            let here = all.skip(gone as int);
            let (header, header_len) = heading(here, last)->Ok_0;
            let skipped = passed(here, header, header_len)->Ok_0;
            &&& gone + skipped <= all.len()
            &&& here.skip(skipped as int) == all.skip((gone + skipped) as int)
            &&& all.take(gone as int) + here.take(skipped as int) == all.take(
                (gone + skipped) as int,
            )
            &&& locate(all, first, tag) == shifted(
                locate(all.skip((gone + skipped) as int), Some(header.tag), tag),
                gone + skipped,
            )
        }),
{
    let here = all.skip(gone as int);
    let (header, header_len) = heading(here, last)->Ok_0;
    let skipped = passed(here, header, header_len)->Ok_0;
    lemma_passed_bound(here, last);
    assert(here.skip(skipped as int) =~= all.skip((gone + skipped) as int));
    assert(all.take(gone as int) + here.take(skipped as int) =~= all.take(
        (gone + skipped) as int,
    ));
}

/// With `gone` bytes of `all` behind it, a search ends where the next
/// header cannot be read, has the tag asked for, or cannot be passed.
pub proof fn lemma_locate_ends(
    all: Seq<u8>,
    first: Option<u64>,
    tag: u64,
    gone: nat,
    last: Option<u64>,
)
    requires
        gone <= all.len(),
        locate(all, first, tag) == shifted(locate(all.skip(gone as int), last, tag), gone),
    ensures
        ({
            let here = all.skip(gone as int);
            match heading(here, last) {
                Err(e) => locate(all, first, tag) == Err::<Located, Error>(e),
                Ok((header, header_len)) => {
                    if header.tag == tag {
                        &&& locate(all, first, tag) == Ok::<Located, Error>(
                            Located { offset: gone, header, start: gone + header_len },
                        )
                        &&& all.take(gone as int) + here.take(header_len as int) == all.take(
                            (gone + header_len) as int,
                        )
                        &&& here.skip(header_len as int) == all.skip((gone + header_len) as int)
                    } else {
                        passed(here, header, header_len) matches Err(e) ==> locate(all, first, tag)
                            == Err::<Located, Error>(e)
                    }
                },
            }
        }),
{
    let here = all.skip(gone as int);
    if heading(here, last) is Ok {
        let (header, header_len) = heading(here, last)->Ok_0;
        crate::header::lemma_bytes_of_parse_header(here);
        assert(all.take(gone as int) + here.take(header_len as int) =~= all.take(
            (gone + header_len) as int,
        ));
        assert(here.skip(header_len as int) =~= all.skip((gone + header_len) as int));
    }
}

/// A field that was found and whose value is all there.
pub struct Span {
    /// The field's header.
    pub header: Header,
    /// Where the field's value starts.
    pub start: nat,
    /// Where the field ends.
    pub end: nat,
}

/// Finds the field with tag `tag` and checks that it has wire type
/// `wire_type` and that its value is complete.
pub open spec fn read_field(
    input: Seq<u8>,
    last: Option<u64>,
    tag: u64,
    wire_type: WireType,
) -> Result<Span, Error> {
    match locate(input, last, tag) {
        Err(e) => Err(e),
        Ok(found) => {
            if found.header.wire_type() != wire_type {
                Err(Error::UnexpectedWireType)
            } else {
                match value_extent(found.header.code, input.skip(found.start as int)) {
                    Err(e) => Err(e),
                    Ok(extent) => Ok(
                        Span { header: found.header, start: found.start, end: found.start + extent },
                    ),
                }
            }
        },
    }
}

/// Reads fields to the end of `input`, none of which is asked for: the
/// tags must ascend and no field may be critical.
pub open spec fn skip_rest(input: Seq<u8>, last: Option<u64>) -> Result<(), Error>
    decreases input.len(),
{
    if input.len() == 0 {
        Ok(())
    } else {
        match heading(input, last) {
            Err(e) => Err(e),
            Ok((header, header_len)) => {
                match passed(input, header, header_len) {
                    Err(e) => Err(e),
                    Ok(skipped) => {
                        proof {
                            lemma_passed_bound(input, last);
                        }
                        skip_rest(input.skip(skipped as int), Some(header.tag))
                    },
                }
            },
        }
    }
}

/// The tag of the last field of `input`, where all of it can be passed, or
/// `last` where it is empty.
pub open spec fn last_passed(input: Seq<u8>, last: Option<u64>) -> Option<u64>
    decreases input.len(),
{
    if input.len() == 0 {
        last
    } else {
        match heading(input, last) {
            Err(_) => last,
            Ok((header, header_len)) => {
                match passed(input, header, header_len) {
                    Err(_) => last,
                    Ok(skipped) => {
                        proof {
                            lemma_passed_bound(input, last);
                        }
                        last_passed(input.skip(skipped as int), Some(header.tag))
                    },
                }
            },
        }
    }
}

/// With `gone` bytes of `all` behind it and one more field passed, the tag
/// of the last field is the same as seen from behind that field.
pub proof fn lemma_last_passed_step(all: Seq<u8>, first: Option<u64>, gone: nat, last: Option<u64>)
    requires
        gone < all.len(),
        last_passed(all, first) == last_passed(all.skip(gone as int), last),
        heading(all.skip(gone as int), last) is Ok,
        passed(
            all.skip(gone as int),
            heading(all.skip(gone as int), last)->Ok_0.0,
            heading(all.skip(gone as int), last)->Ok_0.1,
        ) is Ok,
    ensures
        ({
            let here = all.skip(gone as int);
            let (header, header_len) = heading(here, last)->Ok_0;
            let skipped = passed(here, header, header_len)->Ok_0;
            last_passed(all, first) == last_passed(
                all.skip((gone + skipped) as int),
                Some(header.tag),
            )
        }),
{
    let here = all.skip(gone as int);
    let (header, header_len) = heading(here, last)->Ok_0;
    let skipped = passed(here, header, header_len)->Ok_0;
    lemma_passed_bound(here, last);
    assert(here.skip(skipped as int) =~= all.skip((gone + skipped) as int));
}

/// With `gone` bytes of `all` behind it, passing what is left either ends
/// at once or goes on behind the next field.
pub proof fn lemma_skip_rest_step(all: Seq<u8>, first: Option<u64>, gone: nat, last: Option<u64>)
    requires
        gone <= all.len(),
        skip_rest(all, first) == skip_rest(all.skip(gone as int), last),
    ensures
        ({
            let here = all.skip(gone as int);
            if gone == all.len() {
                skip_rest(all, first) == Ok::<(), Error>(())
            } else {
                match heading(here, last) {
                    Err(e) => skip_rest(all, first) == Err::<(), Error>(e),
                    Ok((header, header_len)) => {
                        match passed(here, header, header_len) {
                            Err(e) => skip_rest(all, first) == Err::<(), Error>(e),
                            Ok(skipped) => {
                                &&& 2 <= skipped
                                &&& gone + skipped <= all.len()
                                &&& here.skip(skipped as int) == all.skip((gone + skipped) as int)
                                &&& all.take(gone as int) + here.take(skipped as int) == all.take(
                                    (gone + skipped) as int,
                                )
                                &&& skip_rest(all, first) == skip_rest(
                                    all.skip((gone + skipped) as int),
                                    Some(header.tag),
                                )
                            },
                        }
                    },
                }
            }
        }),
{
    let here = all.skip(gone as int);
    if gone < all.len() && heading(here, last) is Ok {
        let (header, header_len) = heading(here, last)->Ok_0;
        if passed(here, header, header_len) is Ok {
            let skipped = passed(here, header, header_len)->Ok_0;
            lemma_passed_bound(here, last);
            assert(here.skip(skipped as int) =~= all.skip((gone + skipped) as int));
            assert(all.take(gone as int) + here.take(skipped as int) =~= all.take(
                (gone + skipped) as int,
            ));
        }
    }
}

/// Taking `first` elements and then `more` of what follows is taking
/// `first + more`, also behind a common prefix.
pub proof fn lemma_take_more(prefix: Seq<u8>, all: Seq<u8>, first: nat, more: nat)
    requires
        first + more <= all.len(),
    ensures
        (prefix + all.take(first as int)) + all.skip(first as int).take(more as int) == prefix
            + all.take((first + more) as int),
        all.skip(first as int).skip(more as int) == all.skip((first + more) as int),
{
    assert((prefix + all.take(first as int)) + all.skip(first as int).take(more as int) =~= prefix
        + all.take((first + more) as int));
    assert(all.skip(first as int).skip(more as int) =~= all.skip((first + more) as int));
}

/// `found` with `elements` before what it holds.
pub open spec fn preceded(elements: Seq<Seq<u8>>, found: Result<Seq<Seq<u8>>, Error>) -> Result<
    Seq<Seq<u8>>,
    Error,
> {
    match found {
        Err(e) => Err(e),
        Ok(rest) => Ok(elements + rest),
    }
}

/// The elements of a sequence, read from what follows the code of their
/// wire type.
pub open spec fn parse_elements(input: Seq<u8>) -> Result<Seq<Seq<u8>>, Error>
    decreases input.len(),
{
    if input.len() == 0 {
        Ok(Seq::empty())
    } else {
        match parse_delimiter(input) {
            Err(e) => Err(e),
            Ok((taken, len)) => {
                proof {
                    lemma_delimiter_bound(input);
                }
                preceded(
                    seq![input.subrange(taken as int, (taken + len) as int)],
                    parse_elements(input.skip((taken + len) as int)),
                )
            },
        }
    }
}

/// The elements of a sequence, read from what its field holds behind its
/// length.
pub open spec fn parse_sequence(body: Seq<u8>) -> Result<Seq<Seq<u8>>, Error> {
    if body.len() == 0 {
        Err(Error::TruncatedInput { element: Element::SequenceHeader })
    } else if body[0] != CODE_MESSAGE {
        Err(Error::InvalidEncoding { element: Element::SequenceHeader })
    } else {
        parse_elements(body.skip(1))
    }
}

/// What a request for a boolean field gives: the value and where the field
/// ends.
pub open spec fn read_bool(input: Seq<u8>, last: Option<u64>, tag: u64) -> Result<
    (bool, nat),
    Error,
> {
    match read_field(input, last, tag, WireType::Bool) {
        Err(e) => Err(e),
        Ok(span) => Ok((span.header.code == CODE_TRUE, span.end)),
    }
}

/// What a request for an unsigned integer field gives: the value and where
/// the field ends.
pub open spec fn read_uint64(input: Seq<u8>, last: Option<u64>, tag: u64) -> Result<
    (u64, nat),
    Error,
> {
    match read_field(input, last, tag, WireType::UInt64) {
        Err(e) => Err(e),
        Ok(span) => Ok(
            (parse_vint(input.skip(span.start as int), Element::Value)->Ok_0.0, span.end),
        ),
    }
}

/// What a request for a signed integer field gives: the value and where the
/// field ends.
pub open spec fn read_sint64(input: Seq<u8>, last: Option<u64>, tag: u64) -> Result<
    (i64, nat),
    Error,
> {
    match read_field(input, last, tag, WireType::SInt64) {
        Err(e) => Err(e),
        Ok(span) => Ok(
            (
                unzigzag(parse_vint(input.skip(span.start as int), Element::Value)->Ok_0.0),
                span.end,
            ),
        ),
    }
}

/// A length-delimited value that was found.
pub struct Body {
    /// The field's header.
    pub header: Header,
    /// Where the field's value starts, with its length.
    pub start: nat,
    /// The value, without its length.
    pub bytes: Seq<u8>,
    /// Where the field ends.
    pub end: nat,
}

/// What a request for a length-delimited field of wire type `wire_type`
/// gives.
pub open spec fn read_body(
    input: Seq<u8>,
    last: Option<u64>,
    tag: u64,
    wire_type: WireType,
) -> Result<Body, Error> {
    match read_field(input, last, tag, wire_type) {
        Err(e) => Err(e),
        Ok(span) => {
            let taken = parse_delimiter(input.skip(span.start as int))->Ok_0.0;
            Ok(
                Body {
                    header: span.header,
                    start: span.start,
                    bytes: input.subrange((span.start + taken) as int, span.end as int),
                    end: span.end,
                },
            )
        },
    }
}

/// What a request for a field of binary data gives, where its length has to
/// be within `bounds`.
pub open spec fn read_bytes(
    input: Seq<u8>,
    last: Option<u64>,
    tag: u64,
    bounds: SizeBounds,
) -> Result<Body, Error> {
    match read_body(input, last, tag, WireType::Bytes) {
        Err(e) => Err(e),
        Ok(body) => {
            if bounds.permits(body.bytes.len()) {
                Ok(body)
            } else {
                Err(Error::SizeOutOfBounds)
            }
        },
    }
}

/// What a request for a string field gives, where its length in bytes has
/// to be within `bounds`: the bytes of a string in UTF-8.
pub open spec fn read_string(
    input: Seq<u8>,
    last: Option<u64>,
    tag: u64,
    bounds: SizeBounds,
) -> Result<Body, Error> {
    match read_body(input, last, tag, WireType::String) {
        Err(e) => Err(e),
        Ok(body) => {
            if !bounds.permits(body.bytes.len()) {
                Err(Error::SizeOutOfBounds)
            } else if !valid_utf8(body.bytes) {
                Err(Error::InvalidEncoding { element: Element::Value })
            } else {
                Ok(body)
            }
        },
    }
}

/// What a request for a field that holds a nested message gives, where
/// the length of the message's encoding has to be within `bounds`.
pub open spec fn read_message(
    input: Seq<u8>,
    last: Option<u64>,
    tag: u64,
    bounds: SizeBounds,
) -> Result<Body, Error> {
    match read_body(input, last, tag, WireType::Message) {
        Err(e) => Err(e),
        Ok(body) => {
            if bounds.permits(body.bytes.len()) {
                Ok(body)
            } else {
                Err(Error::SizeOutOfBounds)
            }
        },
    }
}

/// What a request for a sequence field gives, where the length of what
/// the field holds behind its length has to be within `bounds`: the field
/// and its elements.
pub open spec fn read_sequence(
    input: Seq<u8>,
    last: Option<u64>,
    tag: u64,
    bounds: SizeBounds,
) -> Result<(Body, Seq<Seq<u8>>), Error> {
    match read_body(input, last, tag, WireType::Sequence) {
        Err(e) => Err(e),
        Ok(body) => {
            if !bounds.permits(body.bytes.len()) {
                Err(Error::SizeOutOfBounds)
            } else {
                match parse_sequence(body.bytes) {
                    Err(e) => Err(e),
                    Ok(elements) => Ok((body, elements)),
                }
            }
        },
    }
}

} // verus!
