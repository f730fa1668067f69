//! Exact lengths: how many bytes a field takes once encoded, header and
//! value. The critical flag does not change the length.

use vstd::prelude::*;
use vstd::string::StringSliceAdditionalSpecFns;
use crate::encoder::{lemma_delimited_len, lemma_field_len};
use crate::header::{
    Header, CODE_BYTES, CODE_FALSE, CODE_MESSAGE, CODE_SEQUENCE, CODE_SINT64, CODE_STRING,
    CODE_TRUE, CODE_UINT64,
};
use crate::message::Message;
use crate::nested::encodings;
use crate::sequence::{bodies, lemma_elements_bytes_grows, lemma_elements_bytes_push};
use crate::vint64;
use crate::vint64::{lemma_vint_len, vint, vint_len};
use crate::wire::{
    bool_field, bytes_field, delimited, elements_bytes, field, message_field, sequence_body,
    sequence_field, sint64_field, string_field, uint64_field,
};
use crate::zigzag;

verus! {

/// Length of a field whose value takes `payload_len` bytes.
pub open spec fn field_len(tag: u64, payload_len: nat) -> nat {
    vint_len(tag) + 1 + payload_len
}

/// Length of a field whose value is `body_len` bytes behind their length.
pub open spec fn delimited_field_len(tag: u64, body_len: nat) -> nat {
    field_len(tag, vint_len(body_len as u64) + body_len)
}

/// Length of a boolean field.
pub fn bool(tag: u64, value: bool) -> (len: usize)
    ensures
        forall|critical: bool| len == #[trigger] bool_field(tag, critical, value).len(),
        len == field_len(tag, 0),
{
    proof {
        assert forall|critical: bool| field_len(tag, 0) == #[trigger] bool_field(
            tag,
            critical,
            value,
        ).len() by {
            lemma_field_len(tag, critical, CODE_TRUE, Seq::empty());
            lemma_field_len(tag, critical, CODE_FALSE, Seq::empty());
        }
    }
    Header::encoded_len(tag)
}

/// Length of an unsigned integer field.
pub fn uint64(tag: u64, value: u64) -> (len: usize)
    ensures
        forall|critical: bool| len == #[trigger] uint64_field(tag, critical, value).len(),
        len == field_len(tag, vint_len(value)),
{
    proof {
        lemma_vint_len(value);
        assert forall|critical: bool| field_len(tag, vint_len(value)) == #[trigger] uint64_field(
            tag,
            critical,
            value,
        ).len() by {
            lemma_field_len(tag, critical, CODE_UINT64, vint(value));
        }
    }
    Header::encoded_len(tag) + vint64::encoded_len(value)
}

/// Length of a signed integer field.
pub fn sint64(tag: u64, value: i64) -> (len: usize)
    ensures
        forall|critical: bool| len == #[trigger] sint64_field(tag, critical, value).len(),
        len == field_len(tag, vint_len(zigzag::zigzag(value))),
{
    proof {
        lemma_vint_len(zigzag::zigzag(value));
        assert forall|critical: bool|
            field_len(tag, vint_len(zigzag::zigzag(value))) == #[trigger] sint64_field(
                tag,
                critical,
                value,
            ).len() by {
            lemma_field_len(tag, critical, CODE_SINT64, vint(zigzag::zigzag(value)));
        }
    }
    Header::encoded_len(tag) + vint64::encoded_len(zigzag::encode(value))
}

/// Length of a field whose value is `body_len` bytes behind their length:
/// binary data, a string of so many bytes, a nested message, a sequence.
pub fn delimited_field(tag: u64, body_len: usize) -> (len: usize)
    requires
        delimited_field_len(tag, body_len as nat) <= usize::MAX,
    ensures
        len == delimited_field_len(tag, body_len as nat),
{
    proof {
        lemma_vint_len(body_len as u64);
    }
    Header::encoded_len(tag) + vint64::encoded_len(body_len as u64) + body_len
}

/// The length of a length-delimited field goes by the length of its value.
pub proof fn lemma_delimited_field_len(tag: u64, critical: bool, code: u8, body: Seq<u8>)
    ensures
        field(tag, critical, code, delimited(body)).len() == delimited_field_len(tag, body.len()),
{
    lemma_field_len(tag, critical, code, delimited(body));
    lemma_delimited_len(body);
}

/// Length of a field of binary data.
pub fn bytes(tag: u64, value: &[u8]) -> (len: usize)
    requires
        delimited_field_len(tag, value@.len()) <= usize::MAX,
    ensures
        forall|critical: bool| len == #[trigger] bytes_field(tag, critical, value@).len(),
        len == delimited_field_len(tag, value@.len()),
{
    proof {
        assert forall|critical: bool|
            delimited_field_len(tag, value@.len()) == #[trigger] bytes_field(
                tag,
                critical,
                value@,
            ).len() by {
            lemma_delimited_field_len(tag, critical, CODE_BYTES, value@);
        }
    }
    delimited_field(tag, value.len())
}

/// Length of a string field.
pub fn string(tag: u64, value: &str) -> (len: usize)
    requires
        delimited_field_len(tag, value.spec_bytes().len()) <= usize::MAX,
    ensures
        forall|critical: bool| len == #[trigger] string_field(tag, critical, value@).len(),
        len == delimited_field_len(tag, value.spec_bytes().len()),
{
    proof {
        assert forall|critical: bool|
            delimited_field_len(tag, value.spec_bytes().len()) == #[trigger] string_field(
                tag,
                critical,
                value@,
            ).len() by {
            lemma_delimited_field_len(tag, critical, CODE_STRING, value.spec_bytes());
        }
    }
    delimited_field(tag, value.as_bytes().len())
}

/// Length of a field that holds the nested message `value`.
pub fn message<M: Message>(tag: u64, value: &M) -> (len: usize)
    requires
        delimited_field_len(tag, value.encoding().len()) <= usize::MAX,
    ensures
        forall|critical: bool|
            len == #[trigger] message_field(tag, critical, value.encoding()).len(),
        len == delimited_field_len(tag, value.encoding().len()),
{
    proof {
        assert forall|critical: bool|
            delimited_field_len(tag, value.encoding().len()) == #[trigger] message_field(
                tag,
                critical,
                value.encoding(),
            ).len() by {
            lemma_delimited_field_len(tag, critical, CODE_MESSAGE, value.encoding());
        }
    }
    delimited_field(tag, value.encoded_len())
}

/// Length of what a field that holds the sequence `messages` holds behind
/// its length: the code of the elements' wire type, and each element
/// behind its length. It is what a size constraint on the field counts.
pub fn message_seq_body<M: Message>(messages: &[M]) -> (len: usize)
    requires
        sequence_body(encodings(messages@)).len() <= usize::MAX,
    ensures
        len == sequence_body(encodings(messages@)).len(),
{
    let ghost all = encodings(messages@);
    let mut inner: usize = 1;
    let mut i: usize = 0;
    proof {
        assert(all.take(0) =~= Seq::<Seq<u8>>::empty());
    }
    while i < messages.len()
        invariant
            i <= messages.len(),
            all == encodings(messages@),
            inner == 1 + elements_bytes(all.take(i as int)).len(),
            1 + elements_bytes(all).len() <= usize::MAX,
        decreases messages.len() - i,
    {
        proof {
            assert(all.take(i + 1) =~= all.take(i as int).push(messages@[i as int].encoding()));
            lemma_elements_bytes_push(all.take(i as int), messages@[i as int].encoding());
            lemma_elements_bytes_grows(all, (i + 1) as nat);
            lemma_delimited_len(messages@[i as int].encoding());
        }
        let count: usize = messages[i].encoded_len();
        inner = inner + vint64::encoded_len(count as u64) + count;
        i = i + 1;
    }
    proof {
        assert(all.take(i as int) =~= all);
    }
    inner
}

/// Length of a field that holds the sequence `messages`: the field's
/// header, the length of what it holds, the code of the elements' wire
/// type, and each element behind its length.
pub fn message_seq<M: Message>(tag: u64, messages: &[M]) -> (len: usize)
    requires
        delimited_field_len(tag, sequence_body(encodings(messages@)).len()) <= usize::MAX,
    ensures
        forall|critical: bool|
            len == #[trigger] sequence_field(tag, critical, encodings(messages@)).len(),
        len == delimited_field_len(tag, sequence_body(encodings(messages@)).len()),
{
    let ghost all = encodings(messages@);
    proof {
        assert forall|critical: bool|
            delimited_field_len(tag, sequence_body(all).len()) == #[trigger] sequence_field(
                tag,
                critical,
                all,
            ).len() by {
            lemma_delimited_field_len(tag, critical, CODE_SEQUENCE, sequence_body(all));
        }
    }
    delimited_field(tag, message_seq_body(messages))
}

/// Length of a field that holds a sequence of messages, each given by its
/// encoding.
pub fn sequence(tag: u64, elements: &[Vec<u8>]) -> (len: usize)
    requires
        delimited_field_len(tag, sequence_body(bodies(elements@)).len()) <= usize::MAX,
    ensures
        forall|critical: bool|
            len == #[trigger] sequence_field(tag, critical, bodies(elements@)).len(),
        len == delimited_field_len(tag, sequence_body(bodies(elements@)).len()),
{
    proof {
        assert forall|critical: bool|
            delimited_field_len(tag, sequence_body(bodies(elements@)).len())
                == #[trigger] sequence_field(tag, critical, bodies(elements@)).len() by {
            lemma_delimited_field_len(
                tag,
                critical,
                CODE_SEQUENCE,
                sequence_body(bodies(elements@)),
            );
        }
    }
    match crate::sequence::body_len(elements) {
        Some(inner) => delimited_field(tag, inner),
        None => vstd::pervasive::unreached(),
    }
}

} // verus!
