//! Field values that are not known before the program runs, and the single
//! steps that encode, measure and decode one of them as its definition says.

use vstd::prelude::*;
use vstd::slice::slice_to_vec;
use vstd::utf8::{decode_utf8, encode_utf8};
use crate::decoder::Decoder;
use crate::digest::Accumulator;
use crate::encoder::Encoder;
use crate::error::Error;
use crate::field::{Attrs, WireType};
use crate::length;
use crate::length::{delimited_field_len, field_len};
use crate::sequence::{bodies, views};
use crate::vint64::vint_len;
use crate::wire::{
    bool_field, bytes_field, message_field, read_bool, read_bytes, read_message, read_sequence,
    read_sint64, read_string, read_uint64, sequence_body, sequence_field, sint64_field,
    string_field, uint64_field,
};
use crate::zigzag::zigzag;

verus! {

/// What a field holds, as mathematics.
pub enum Datum {
    /// A boolean
    Bool(bool),
    /// A 64-bit unsigned integer
    UInt64(u64),
    /// A 64-bit signed integer
    SInt64(i64),
    /// Binary data
    Bytes(Seq<u8>),
    /// A string
    String(Seq<char>),
    /// A nested message, by its encoding
    Message(Seq<u8>),
    /// A sequence of messages, each by its encoding
    Sequence(Seq<Seq<u8>>),
}

impl Datum {
    /// The wire type of a field that holds this.
    pub open spec fn wire_type(self) -> WireType {
        match self {
            Datum::Bool(_) => WireType::Bool,
            Datum::UInt64(_) => WireType::UInt64,
            Datum::SInt64(_) => WireType::SInt64,
            Datum::Bytes(_) => WireType::Bytes,
            Datum::String(_) => WireType::String,
            Datum::Message(_) => WireType::Message,
            Datum::Sequence(_) => WireType::Sequence,
        }
    }

    /// The encoding of the field with tag `tag` that holds this.
    pub open spec fn field(self, tag: u64, critical: bool) -> Seq<u8> {
        match self {
            Datum::Bool(value) => bool_field(tag, critical, value),
            Datum::UInt64(value) => uint64_field(tag, critical, value),
            Datum::SInt64(value) => sint64_field(tag, critical, value),
            Datum::Bytes(value) => bytes_field(tag, critical, value),
            Datum::String(value) => string_field(tag, critical, value),
            Datum::Message(body) => message_field(tag, critical, body),
            Datum::Sequence(elements) => sequence_field(tag, critical, elements),
        }
    }

    /// The number of bytes of the value, without its length, where the
    /// value has a size that varies.
    pub open spec fn size(self) -> nat {
        match self {
            Datum::Bytes(value) => value.len(),
            Datum::String(value) => encode_utf8(value).len(),
            Datum::Message(body) => body.len(),
            Datum::Sequence(elements) => sequence_body(elements).len(),
            _ => 0,
        }
    }

    /// The length of the field with tag `tag` that holds this.
    pub open spec fn field_len(self, tag: u64) -> nat {
        match self {
            Datum::Bool(_) => field_len(tag, 0),
            Datum::UInt64(value) => field_len(tag, vint_len(value)),
            Datum::SInt64(value) => field_len(tag, vint_len(zigzag(value))),
            Datum::Bytes(value) => delimited_field_len(tag, value.len()),
            Datum::String(value) => delimited_field_len(tag, encode_utf8(value).len()),
            Datum::Message(body) => delimited_field_len(tag, body.len()),
            Datum::Sequence(elements) => delimited_field_len(tag, sequence_body(elements).len()),
        }
    }

    /// Whether a field defined by `attrs` can hold this: the wire type is
    /// the defined one, and what has a size that varies has one that the
    /// definition permits.
    pub open spec fn suits(self, attrs: Attrs) -> bool {
        &&& self.wire_type() == attrs.spec_wire_type()
        &&& self.wire_type().has_size() ==> attrs.spec_bounds().permits(self.size())
    }
}

/// What a field holds.
#[derive(Clone, Debug, PartialEq, Eq)]
pub enum Value {
    /// A boolean
    Bool(bool),
    /// A 64-bit unsigned integer
    UInt64(u64),
    /// A 64-bit signed integer
    SInt64(i64),
    /// Binary data
    Bytes(Vec<u8>),
    /// A string
    String(String),
    /// A nested message, by its encoding
    Message(Vec<u8>),
    /// A sequence of messages, each by its encoding
    Sequence(Vec<Vec<u8>>),
}

impl View for Value {
    type V = Datum;

    open spec fn view(&self) -> Datum {
        match self {
            Value::Bool(value) => Datum::Bool(*value),
            Value::UInt64(value) => Datum::UInt64(*value),
            Value::SInt64(value) => Datum::SInt64(*value),
            Value::Bytes(value) => Datum::Bytes(value@),
            Value::String(value) => Datum::String(value@),
            Value::Message(body) => Datum::Message(body@),
            Value::Sequence(elements) => Datum::Sequence(bodies(elements@)),
        }
    }
}

impl Value {
    /// The wire type of a field that holds this value.
    pub fn wire_type(&self) -> (wire_type: WireType)
        ensures
            wire_type == self@.wire_type(),
    {
        match self {
            Value::Bool(_) => WireType::Bool,
            Value::UInt64(_) => WireType::UInt64,
            Value::SInt64(_) => WireType::SInt64,
            Value::Bytes(_) => WireType::Bytes,
            Value::String(_) => WireType::String,
            Value::Message(_) => WireType::Message,
            Value::Sequence(_) => WireType::Sequence,
        }
    }

    /// Whether a field defined by `attrs` can hold this value; if not,
    /// why.
    pub fn check(&self, attrs: &Attrs) -> (r: Result<(), Error>)
        ensures
            r == mismatch(*attrs, self@),
    {
        if self.wire_type() != attrs.wire_type() {
            return Err(Error::UnexpectedWireType);
        }
        let bounds = attrs.bounds();
        let size_ok: bool = match self {
            Value::Bytes(value) => bounds.allows(value.len()),
            Value::String(value) => bounds.allows(value.as_str().as_bytes().len()),
            Value::Message(body) => bounds.allows(body.len()),
            Value::Sequence(elements) => match crate::sequence::body_len(elements.as_slice()) {
                Some(len) => bounds.allows(len),
                None => bounds.allows_beyond(),
            },
            _ => true,
        };
        if size_ok {
            Ok(())
        } else {
            Err(Error::SizeOutOfBounds)
        }
    }
}

/// Why a field defined by `attrs` cannot hold `datum`, if it cannot.
pub open spec fn mismatch(attrs: Attrs, datum: Datum) -> Result<(), Error> {
    if datum.wire_type() != attrs.spec_wire_type() {
        Err(Error::UnexpectedWireType)
    } else if !datum.suits(attrs) {
        Err(Error::SizeOutOfBounds)
    } else {
        Ok(())
    }
}

/// Encode a field of a message: appends the field that `attrs` defines,
/// holding `value`. A value that the definition does not permit is refused
/// before anything is written.
pub fn encode_field(encoder: &mut Encoder<'_>, attrs: &Attrs, value: &Value) -> (r: Result<
    (),
    Error,
>)
    requires
        old(encoder).wf(),
    ensures
        match mismatch(*attrs, value@) {
            Err(e) => r == Err::<(), Error>(e) && final(encoder).unchanged(*old(encoder)),
            Ok(()) => final(encoder).appends(
                *old(encoder),
                attrs.spec_tag(),
                value@.field(attrs.spec_tag(), attrs.spec_is_critical()),
                r,
            ),
        },
{
    proof {
        assert(encoder.written() + Seq::<u8>::empty() =~= encoder.written());
    }
    match value.check(attrs) {
        Err(e) => {
            return Err(e);
        },
        Ok(()) => {},
    }
    let tag: u64 = attrs.tag();
    let critical: bool = attrs.is_critical();
    match value {
        Value::Bool(value) => encoder.bool(tag, critical, *value),
        Value::UInt64(value) => encoder.uint64(tag, critical, *value),
        Value::SInt64(value) => encoder.sint64(tag, critical, *value),
        Value::Bytes(value) => encoder.bytes(tag, critical, value.as_slice()),
        Value::String(value) => encoder.string(tag, critical, value.as_str()),
        Value::Message(body) => encoder.message(tag, critical, body.as_slice()),
        Value::Sequence(elements) => encoder.sequence(tag, critical, elements.as_slice()),
    }
}

/// Compute the encoded length of a field: the number of bytes that the
/// field with tag `tag` that holds `value` takes, or nothing where that is
/// more than a `usize` can hold.
pub fn encoded_len_for_field(tag: u64, value: &Value) -> (r: Option<usize>)
    ensures
        match r {
            Some(len) => len == value@.field_len(tag),
            None => value@.field_len(tag) > usize::MAX,
        },
        forall|critical: bool| value@.field_len(tag) == #[trigger] value@.field(tag, critical).len(),
{
    proof {
        lemma_field_len_of_datum(tag, value@);
    }
    match value {
        Value::Bool(value) => Some(length::bool(tag, *value)),
        Value::UInt64(value) => Some(length::uint64(tag, *value)),
        Value::SInt64(value) => Some(length::sint64(tag, *value)),
        Value::Bytes(value) => delimited_len(tag, value.len()),
        Value::String(value) => delimited_len(tag, value.as_str().as_bytes().len()),
        Value::Message(body) => delimited_len(tag, body.len()),
        Value::Sequence(elements) => {
            match crate::sequence::body_len(elements.as_slice()) {
                None => None,
                Some(inner) => delimited_len(tag, inner),
            }
        },
    }
}

/// The digests of the elements of a sequence, one after the other, where an
/// element's digest is the hash of its encoding.
pub open spec fn element_hashes<A: Accumulator>(elements: Seq<Seq<u8>>) -> Seq<u8>
    decreases elements.len(),
{
    if elements.len() == 0 {
        Seq::empty()
    } else {
        element_hashes::<A>(elements.drop_last()) + A::hash(elements.last())
    }
}

/// What reading one field gives.
pub struct Reading {
    /// What the field holds.
    pub datum: Datum,
    /// Where the field ends.
    pub end: nat,
    /// What is folded into the digest on the way: all the bytes up to the
    /// end of the field or, for a sequence, the bytes before its value and
    /// then the digests of its elements.
    pub folded: Seq<u8>,
}

/// What a request for the field that `attrs` defines gives.
pub open spec fn read_datum<A: Accumulator>(
    input: Seq<u8>,
    last: Option<u64>,
    attrs: Attrs,
) -> Result<Reading, Error> {
    let tag = attrs.spec_tag();
    match attrs.spec_wire_type() {
        WireType::Bool => match read_bool(input, last, tag) {
            Err(e) => Err(e),
            Ok((value, end)) => Ok(
                Reading { datum: Datum::Bool(value), end, folded: input.take(end as int) },
            ),
        },
        WireType::UInt64 => match read_uint64(input, last, tag) {
            Err(e) => Err(e),
            Ok((value, end)) => Ok(
                Reading { datum: Datum::UInt64(value), end, folded: input.take(end as int) },
            ),
        },
        WireType::SInt64 => match read_sint64(input, last, tag) {
            Err(e) => Err(e),
            Ok((value, end)) => Ok(
                Reading { datum: Datum::SInt64(value), end, folded: input.take(end as int) },
            ),
        },
        WireType::Bytes => match read_bytes(input, last, tag, attrs.spec_bounds()) {
            Err(e) => Err(e),
            Ok(body) => Ok(
                Reading {
                    datum: Datum::Bytes(body.bytes),
                    end: body.end,
                    folded: input.take(body.end as int),
                },
            ),
        },
        WireType::String => match read_string(input, last, tag, attrs.spec_bounds()) {
            Err(e) => Err(e),
            Ok(body) => Ok(
                Reading {
                    datum: Datum::String(decode_utf8(body.bytes)),
                    end: body.end,
                    folded: input.take(body.end as int),
                },
            ),
        },
        WireType::Message => match read_message(input, last, tag, attrs.spec_bounds()) {
            Err(e) => Err(e),
            Ok(body) => Ok(
                Reading {
                    datum: Datum::Message(body.bytes),
                    end: body.end,
                    folded: input.take(body.end as int),
                },
            ),
        },
        WireType::Sequence => match read_sequence(input, last, tag, attrs.spec_bounds()) {
            Err(e) => Err(e),
            Ok((body, elements)) => Ok(
                Reading {
                    datum: Datum::Sequence(elements),
                    end: body.end,
                    folded: input.take(body.start as int) + element_hashes::<A>(elements),
                },
            ),
        },
    }
}

/// The hash of `data`, by a fresh accumulator.
pub fn hash_of<A: Accumulator>(data: &[u8]) -> (digest: Vec<u8>)
    ensures
        digest@ == A::hash(data@),
{
    let mut accumulator = A::new();
    accumulator.absorb(data);
    proof {
        assert(Seq::<u8>::empty() + data@ =~= data@);
    }
    accumulator.finalize()
}

/// Decodes the field that `attrs` defines.
///
/// A sequence is folded into the digest by its elements' digests, where an
/// element's digest is the hash of its encoding.
#[verifier::rlimit(50)]
pub fn decode_field<A: Accumulator>(decoder: &mut Decoder<'_, A>, attrs: &Attrs) -> (r: Result<
    Value,
    Error,
>)
    requires
        old(decoder).wf(),
    ensures
        final(decoder).wf(),
        final(decoder).input() == old(decoder).input(),
        match read_datum::<A>(old(decoder).remaining(), old(decoder).last_tag(), *attrs) {
            Ok(reading) => {
                &&& r matches Ok(value)
                &&& value@ == reading.datum
                &&& final(decoder).advanced(
                    *old(decoder),
                    reading.end,
                    attrs.spec_tag(),
                    reading.folded,
                )
            },
            Err(e) => r matches Err(found) && found == e,
        },
{
    let tag: u64 = attrs.tag();
    match attrs.wire_type() {
        WireType::Bool => match decoder.decode_bool(tag) {
            Err(e) => Err(e),
            Ok(value) => Ok(Value::Bool(value)),
        },
        WireType::UInt64 => match decoder.decode_uint64(tag) {
            Err(e) => Err(e),
            Ok(value) => Ok(Value::UInt64(value)),
        },
        WireType::SInt64 => match decoder.decode_sint64(tag) {
            Err(e) => Err(e),
            Ok(value) => Ok(Value::SInt64(value)),
        },
        WireType::Bytes => {
            let bounds = attrs.bounds();
            match decoder.decode_bytes(tag, &bounds) {
                Err(e) => Err(e),
                Ok(value) => Ok(Value::Bytes(slice_to_vec(value))),
            }
        },
        WireType::String => {
            let bounds = attrs.bounds();
            match decoder.decode_string(tag, &bounds) {
                Err(e) => Err(e),
                Ok(value) => Ok(Value::String(value.to_owned())),
            }
        },
        WireType::Message => {
            let bounds = attrs.bounds();
            match decoder.decode_message(tag, &bounds) {
                Err(e) => Err(e),
                Ok(body) => Ok(Value::Message(slice_to_vec(body))),
            }
        },
        WireType::Sequence => match decoder.decode_sequence(tag, &attrs.bounds()) {
            Err(e) => Err(e),
            Ok(found) => {
                let ghost all = views(found@);
                let ghost header_part = decoder.transcript();
                let ghost after = *decoder;
                let mut elements: Vec<Vec<u8>> = Vec::new();
                let mut i: usize = 0;
                proof {
                    assert(all.take(0) =~= Seq::<Seq<u8>>::empty());
                    assert(header_part + Seq::<u8>::empty() =~= header_part);
                    assert(bodies(elements@) =~= all.take(0));
                }
                while i < found.len()
                    invariant
                        i <= found.len(),
                        all == views(found@),
                        bodies(elements@) == all.take(i as int),
                        decoder.wf(),
                        decoder.input() == after.input(),
                        decoder.position() == after.position(),
                        decoder.last_tag() == after.last_tag(),
                        decoder.digest() == after.digest(),
                        decoder.transcript() == header_part + element_hashes::<A>(
                            all.take(i as int),
                        ),
                    decreases found.len() - i,
                {
                    let element: &[u8] = found[i];
                    let digest = hash_of::<A>(element);
                    let ghost so_far = element_hashes::<A>(all.take(i as int));
                    decoder.fold_digest(digest.as_slice());
                    elements.push(slice_to_vec(element));
                    proof {
                        assert(all.take(i + 1).drop_last() =~= all.take(i as int));
                        assert(all.take(i + 1).last() == element@);
                        assert(header_part + (so_far + digest@) =~= (header_part + so_far)
                            + digest@);
                        assert(bodies(elements@) =~= all.take(i + 1));
                    }
                    i = i + 1;
                }
                proof {
                    assert(all.take(i as int) =~= all);
                    let before = old(decoder).remaining().take(
                        read_sequence(
                            old(decoder).remaining(),
                            old(decoder).last_tag(),
                            tag,
                            attrs.spec_bounds(),
                        )->Ok_0.0.start as int,
                    );
                    assert(old(decoder).transcript() + (before + element_hashes::<A>(all)) =~= (
                    old(decoder).transcript() + before) + element_hashes::<A>(all));
                }
                Ok(Value::Sequence(elements))
            },
        },
    }
}

/// Length of a field whose value is `body_len` bytes behind their length,
/// or nothing where that is more than a `usize` can hold.
pub fn delimited_len(tag: u64, body_len: usize) -> (r: Option<usize>)
    ensures
        match r {
            Some(len) => len == delimited_field_len(tag, body_len as nat),
            None => delimited_field_len(tag, body_len as nat) > usize::MAX,
        },
{
    let fixed: usize = crate::header::Header::encoded_len(tag) + crate::vint64::encoded_len(
        body_len as u64,
    );
    if body_len > usize::MAX - fixed {
        None
    } else {
        Some(fixed + body_len)
    }
}

/// The length of a field is the length of its encoding, critical or not.
pub proof fn lemma_field_len_of_datum(tag: u64, datum: Datum)
    ensures
        forall|critical: bool| datum.field_len(tag) == #[trigger] datum.field(tag, critical).len(),
{
    assert forall|critical: bool| datum.field_len(tag) == #[trigger] datum.field(
        tag,
        critical,
    ).len() by {
        match datum {
            Datum::Bool(value) => {
                crate::encoder::lemma_field_len(
                    tag,
                    critical,
                    crate::header::CODE_TRUE,
                    Seq::empty(),
                );
                crate::encoder::lemma_field_len(
                    tag,
                    critical,
                    crate::header::CODE_FALSE,
                    Seq::empty(),
                );
            },
            Datum::UInt64(value) => {
                crate::vint64::lemma_vint_len(value);
                crate::encoder::lemma_field_len(
                    tag,
                    critical,
                    crate::header::CODE_UINT64,
                    crate::vint64::vint(value),
                );
            },
            Datum::SInt64(value) => {
                crate::vint64::lemma_vint_len(zigzag(value));
                crate::encoder::lemma_field_len(
                    tag,
                    critical,
                    crate::header::CODE_SINT64,
                    crate::vint64::vint(zigzag(value)),
                );
            },
            Datum::Bytes(value) => {
                length::lemma_delimited_field_len(tag, critical, crate::header::CODE_BYTES, value);
            },
            Datum::String(value) => {
                length::lemma_delimited_field_len(
                    tag,
                    critical,
                    crate::header::CODE_STRING,
                    encode_utf8(value),
                );
            },
            Datum::Message(body) => {
                length::lemma_delimited_field_len(
                    tag,
                    critical,
                    crate::header::CODE_MESSAGE,
                    body,
                );
            },
            Datum::Sequence(elements) => {
                length::lemma_delimited_field_len(
                    tag,
                    critical,
                    crate::header::CODE_SEQUENCE,
                    sequence_body(elements),
                );
            },
        }
    }
}

} // verus!
