//! Codecs derived from definitions: what decodes, encodes and measures a
//! whole message, given the attributes of its fields.
//!
//! A message is either a structure, whose fields all occur, in ascending
//! tag order, or an enumeration, which is exactly one of several
//! alternative fields, told apart by the leading tag.

use vstd::prelude::*;
use vstd::slice::slice_subrange;
use crate::decoder::Decoder;
use crate::digest::Accumulator;
use crate::encoder::Encoder;
use crate::error::Error;
use crate::field::Attrs;
use crate::header::parse_header;
use crate::value::{
    decode_field, encode_field, encoded_len_for_field, lemma_field_len_of_datum, mismatch,
    read_datum, Datum, Reading, Value,
};
use crate::wire::skip_rest;

verus! {

broadcast use vstd::slice::group_slice_axioms;

/// What the values hold, in order.
pub open spec fn data_of(values: Seq<Value>) -> Seq<Datum> {
    values.map_values(|v: Value| v@)
}

/// What reading a run of fields gives.
pub struct Outcome {
    /// What the fields hold, in order.
    pub data: Seq<Datum>,
    /// Where the last of them ends.
    pub end: nat,
    /// What is folded into the digest on the way.
    pub folded: Seq<u8>,
    /// The tag passed last.
    pub last: Option<u64>,
}

/// `done`, and then what `rest` gives behind it.
pub open spec fn joined(done: Outcome, rest: Result<Outcome, Error>) -> Result<Outcome, Error> {
    match rest {
        Err(e) => Err(e),
        Ok(more) => Ok(
            Outcome {
                data: done.data + more.data,
                end: done.end + more.end,
                folded: done.folded + more.folded,
                last: more.last,
            },
        ),
    }
}

/// What a single reading gives, as the outcome of a run of one field.
pub open spec fn single(reading: Reading, tag: u64) -> Outcome {
    Outcome {
        data: seq![reading.datum],
        end: reading.end,
        folded: reading.folded,
        last: Some(tag),
    }
}

/// What requests for the fields that `fields` defines give, one after the
/// other.
pub open spec fn read_fields<A: Accumulator>(
    fields: Seq<Attrs>,
    input: Seq<u8>,
    last: Option<u64>,
) -> Result<Outcome, Error>
    decreases fields.len(),
{
    if fields.len() == 0 {
        Ok(Outcome { data: Seq::empty(), end: 0, folded: Seq::empty(), last })
    } else {
        match read_datum::<A>(input, last, fields[0]) {
            Err(e) => Err(e),
            Ok(first) => joined(
                single(first, fields[0].spec_tag()),
                read_fields::<A>(
                    fields.skip(1),
                    input.skip(first.end as int),
                    Some(fields[0].spec_tag()),
                ),
            ),
        }
    }
}

/// With `count` fields read, a run of requests goes on with the next
/// field.
#[verifier::rlimit(50)]
pub proof fn lemma_read_fields_step<A: Accumulator>(
    fields: Seq<Attrs>,
    input: Seq<u8>,
    first: Option<u64>,
    count: nat,
    done: Outcome,
)
    requires
        count < fields.len(),
        done.end <= input.len(),
        read_fields::<A>(fields, input, first) == joined(
            done,
            read_fields::<A>(fields.skip(count as int), input.skip(done.end as int), done.last),
        ),
    ensures
        ({
            let here = input.skip(done.end as int);
            match read_datum::<A>(here, done.last, fields[count as int]) {
                Err(e) => read_fields::<A>(fields, input, first) == Err::<Outcome, Error>(e),
                Ok(next) => {
                    let tag = fields[count as int].spec_tag();
                    let grown = Outcome {
                        data: done.data.push(next.datum),
                        end: done.end + next.end,
                        folded: done.folded + next.folded,
                        last: Some(tag),
                    };
                    read_fields::<A>(fields, input, first) == joined(
                        grown,
                        read_fields::<A>(
                            fields.skip(count as int + 1),
                            input.skip(grown.end as int),
                            grown.last,
                        ),
                    )
                },
            }
        }),
{
    let here = input.skip(done.end as int);
    let left = fields.skip(count as int);
    assert(left[0] == fields[count as int]);
    assert(left.skip(1) =~= fields.skip(count as int + 1));
    if read_datum::<A>(here, done.last, fields[count as int]) is Ok {
        let next = read_datum::<A>(here, done.last, fields[count as int])->Ok_0;
        let tag = fields[count as int].spec_tag();
        let rest = read_fields::<A>(left.skip(1), here.skip(next.end as int), Some(tag));
        assert(here.skip(next.end as int) =~= input.skip((done.end + next.end) as int)) by {
            lemma_reading_within::<A>(here, done.last, fields[count as int]);
        }
        if rest is Ok {
            let more = rest->Ok_0;
            assert(done.data + (seq![next.datum] + more.data) =~= done.data.push(next.datum)
                + more.data);
            assert(done.folded + (next.folded + more.folded) =~= (done.folded + next.folded)
                + more.folded);
        }
    }
}

/// A field that was read ends within the input.
pub proof fn lemma_reading_within<A: Accumulator>(input: Seq<u8>, last: Option<u64>, attrs: Attrs)
    requires
        read_datum::<A>(input, last, attrs) is Ok,
    ensures
        read_datum::<A>(input, last, attrs)->Ok_0.end <= input.len(),
{
    crate::laws::lemma_read_field_within(input, last, attrs.spec_tag(), attrs.spec_wire_type());
}

/// Decodes the fields that `fields` defines, one after the other.
#[verifier::rlimit(50)]
pub fn decode_fields<A: Accumulator>(decoder: &mut Decoder<'_, A>, fields: &[Attrs]) -> (r: Result<
    Vec<Value>,
    Error,
>)
    requires
        old(decoder).wf(),
    ensures
        final(decoder).wf(),
        final(decoder).input() == old(decoder).input(),
        match read_fields::<A>(fields@, old(decoder).remaining(), old(decoder).last_tag()) {
            Ok(outcome) => {
                &&& r matches Ok(values)
                &&& data_of(values@) == outcome.data
                &&& final(decoder).moved(*old(decoder), outcome.end, outcome.last, outcome.folded)
            },
            Err(e) => r matches Err(found) && found == e,
        },
{
    let ghost all = decoder.remaining();
    let ghost first = decoder.last_tag();
    let ghost mut done = Outcome {
        data: Seq::empty(),
        end: 0,
        folded: Seq::empty(),
        last: first,
    };
    let mut values: Vec<Value> = Vec::new();
    let mut i: usize = 0;
    proof {
        assert(all.skip(0) =~= all);
        assert(fields@.skip(0) =~= fields@);
        assert(decoder.transcript() + Seq::<u8>::empty() =~= decoder.transcript());
        assert(data_of(values@) =~= done.data);
        let whole = read_fields::<A>(fields@, all, first);
        if whole is Ok {
            assert(Seq::<Datum>::empty() + whole->Ok_0.data =~= whole->Ok_0.data);
            assert(Seq::<u8>::empty() + whole->Ok_0.folded =~= whole->Ok_0.folded);
        }
    }
    while i < fields.len()
        invariant
            i <= fields.len(),
            all == old(decoder).remaining(),
            first == old(decoder).last_tag(),
            done.end <= all.len(),
            data_of(values@) == done.data,
            decoder.moved(*old(decoder), done.end, done.last, done.folded),
            decoder.remaining() == all.skip(done.end as int),
            read_fields::<A>(fields@, all, first) == joined(
                done,
                read_fields::<A>(fields@.skip(i as int), all.skip(done.end as int), done.last),
            ),
        decreases fields.len() - i,
    {
        proof {
            lemma_read_fields_step::<A>(fields@, all, first, i as nat, done);
            if read_datum::<A>(all.skip(done.end as int), done.last, fields@[i as int]) is Ok {
                lemma_reading_within::<A>(all.skip(done.end as int), done.last, fields@[i as int]);
            }
        }
        let ghost so_far = decoder.transcript();
        let ghost earlier = data_of(values@);
        match decode_field::<A>(decoder, &fields[i]) {
            Err(e) => {
                return Err(e);
            },
            Ok(value) => {
                proof {
                    let next = read_datum::<A>(
                        all.skip(done.end as int),
                        done.last,
                        fields@[i as int],
                    )->Ok_0;
                    assert(old(decoder).transcript() + (done.folded + next.folded) =~= (old(
                        decoder,
                    ).transcript() + done.folded) + next.folded);
                    assert(decoder.remaining() =~= all.skip((done.end + next.end) as int));
                    done =
                    Outcome {
                        data: done.data.push(next.datum),
                        end: done.end + next.end,
                        folded: done.folded + next.folded,
                        last: Some(fields@[i as int].spec_tag()),
                    };
                }
                values.push(value);
                proof {
                    assert(data_of(values@) =~= earlier.push(value@));
                }
            },
        }
        i = i + 1;
    }
    proof {
        let left = read_fields::<A>(fields@.skip(i as int), all.skip(done.end as int), done.last);
        assert(left is Ok);
        assert(done.data + left->Ok_0.data =~= done.data);
        assert(done.folded + left->Ok_0.folded =~= done.folded);
    }
    Ok(values)
}

/// Whether the tags of the fields ascend strictly.
pub open spec fn ascending(fields: Seq<Attrs>) -> bool {
    forall|i: int, j: int|
        0 <= i < j < fields.len() ==> (#[trigger] fields[i]).spec_tag() < (
        #[trigger] fields[j]).spec_tag()
}

/// Whether the tags of the fields ascend strictly.
pub fn is_ascending(fields: &[Attrs]) -> (r: bool)
    ensures
        r == ascending(fields@),
{
    let mut i: usize = 1;
    while i < fields.len()
        invariant
            1 <= i,
            forall|a: int, b: int|
                0 <= a < b < i && b < fields@.len() ==> (#[trigger] fields@[a]).spec_tag() < (
                #[trigger] fields@[b]).spec_tag(),
        decreases fields.len() - i,
    {
        if fields[i - 1].tag() >= fields[i].tag() {
            proof {
                assert(fields@[i - 1].spec_tag() >= fields@[i as int].spec_tag());
            }
            return false;
        }
        proof {
            assert forall|a: int, b: int| 0 <= a < b < i + 1 && b < fields@.len() implies (
            #[trigger] fields@[a]).spec_tag() < (#[trigger] fields@[b]).spec_tag() by {
                if b == i && a < i - 1 {
                    assert(fields@[a].spec_tag() < fields@[i - 1].spec_tag());
                }
            }
        }
        i = i + 1;
    }
    true
}

/// What decoding a structure gives.
pub struct Decoded {
    /// What the fields hold, in order.
    pub data: Seq<Datum>,
    /// The digest, where the definition has one.
    pub digest: Option<Seq<u8>>,
}

/// What decoding `input` as a structure with these fields gives, where the
/// digest, if there is one, stands behind the first `digest_at` fields.
///
/// The fields before the digest are read, then the digest is taken of what
/// was folded up to there, then the other fields are read, and then what
/// is left is passed: fields that the definition does not know.
pub open spec fn read_struct<A: Accumulator>(
    fields: Seq<Attrs>,
    digest_at: Option<nat>,
    input: Seq<u8>,
) -> Result<Decoded, Error> {
    let at = match digest_at {
        Some(at) => at,
        None => fields.len(),
    };
    match read_fields::<A>(fields.take(at as int), input, None) {
        Err(e) => Err(e),
        Ok(head) => match read_fields::<A>(
            fields.skip(at as int),
            input.skip(head.end as int),
            head.last,
        ) {
            Err(e) => Err(e),
            Ok(tail) => match skip_rest(input.skip((head.end + tail.end) as int), tail.last) {
                Err(e) => Err(e),
                Ok(()) => Ok(
                    Decoded {
                        data: head.data + tail.data,
                        digest: if digest_at is Some {
                            Some(A::hash(head.folded))
                        } else {
                            None
                        },
                    },
                ),
            },
        },
    }
}

/// The encodings of the fields that `fields` defines, holding `data`, one
/// after the other.
pub open spec fn fields_encoding(fields: Seq<Attrs>, data: Seq<Datum>) -> Seq<u8>
    decreases fields.len(),
{
    if fields.len() == 0 || data.len() == 0 {
        Seq::empty()
    } else {
        fields_encoding(fields.drop_last(), data.drop_last()) + data.last().field(
            fields.last().spec_tag(),
            fields.last().spec_is_critical(),
        )
    }
}

/// The lengths of the fields that `fields` defines, holding `data`,
/// together.
pub open spec fn fields_len(fields: Seq<Attrs>, data: Seq<Datum>) -> nat
    decreases fields.len(),
{
    if fields.len() == 0 || data.len() == 0 {
        0
    } else {
        fields_len(fields.drop_last(), data.drop_last()) + data.last().field_len(
            fields.last().spec_tag(),
        )
    }
}

/// Why the fields that `fields` define cannot hold `data`, by the first
/// that cannot, if one cannot.
pub open spec fn first_mismatch(fields: Seq<Attrs>, data: Seq<Datum>) -> Result<(), Error>
    decreases fields.len(),
{
    if fields.len() == 0 || data.len() == 0 {
        Ok(())
    } else {
        match mismatch(fields[0], data[0]) {
            Err(e) => Err(e),
            Ok(()) => first_mismatch(fields.skip(1), data.skip(1)),
        }
    }
}

/// The length of the encoding of a structure with these fields, holding
/// `data`, or why there is no encoding.
pub open spec fn measure(fields: Seq<Attrs>, data: Seq<Datum>) -> Result<nat, Error> {
    if fields.len() != data.len() {
        Err(Error::FieldCount)
    } else {
        match first_mismatch(fields, data) {
            Err(e) => Err(e),
            Ok(()) => Ok(fields_len(fields, data)),
        }
    }
}

/// The length of the encodings is the sum of the fields' lengths.
pub proof fn lemma_fields_len(fields: Seq<Attrs>, data: Seq<Datum>)
    ensures
        fields_encoding(fields, data).len() == fields_len(fields, data),
    decreases fields.len(),
{
    if fields.len() != 0 && data.len() != 0 {
        lemma_fields_len(fields.drop_last(), data.drop_last());
        lemma_field_len_of_datum(fields.last().spec_tag(), data.last());
    }
}

/// One more field adds its encoding at the end, and its length.
pub proof fn lemma_fields_push(fields: Seq<Attrs>, data: Seq<Datum>, count: nat)
    requires
        count < fields.len(),
        count < data.len(),
    ensures
        fields_encoding(fields.take((count + 1) as int), data.take((count + 1) as int)) == fields_encoding(
            fields.take(count as int),
            data.take(count as int),
        ) + data[count as int].field(
            fields[count as int].spec_tag(),
            fields[count as int].spec_is_critical(),
        ),
        fields_len(fields.take((count + 1) as int), data.take((count + 1) as int)) == fields_len(
            fields.take(count as int),
            data.take(count as int),
        ) + data[count as int].field_len(fields[count as int].spec_tag()),
{
    assert(fields.take((count + 1) as int).drop_last() =~= fields.take(count as int));
    assert(data.take((count + 1) as int).drop_last() =~= data.take(count as int));
}

/// The first fields take no more bytes than all of them.
pub proof fn lemma_fields_len_grows(fields: Seq<Attrs>, data: Seq<Datum>, count: nat)
    requires
        fields.len() == data.len(),
        count <= fields.len(),
    ensures
        fields_len(fields.take(count as int), data.take(count as int)) <= fields_len(fields, data),
    decreases fields.len() - count,
{
    if count < fields.len() {
        lemma_fields_len_grows(fields, data, count + 1);
        lemma_fields_push(fields, data, count);
    } else {
        assert(fields.take(count as int) =~= fields);
        assert(data.take(count as int) =~= data);
    }
}

/// Where no field mismatches, each can hold what it is given.
pub proof fn lemma_no_mismatch(fields: Seq<Attrs>, data: Seq<Datum>, index: nat)
    requires
        first_mismatch(fields, data) is Ok,
        index < fields.len(),
        index < data.len(),
    ensures
        mismatch(fields[index as int], data[index as int]) is Ok,
    decreases index,
{
    if index > 0 {
        lemma_no_mismatch(fields.skip(1), data.skip(1), (index - 1) as nat);
    }
}

/// Whether each of the fields that `fields` define can hold its value; if
/// not, why the first that cannot, cannot.
pub fn check_values(fields: &[Attrs], values: &[Value]) -> (r: Result<(), Error>)
    ensures
        r == first_mismatch(fields@, data_of(values@)),
{
    let ghost data = data_of(values@);
    let mut i: usize = 0;
    proof {
        assert(fields@.skip(0) =~= fields@);
        assert(data.skip(0) =~= data);
    }
    while i < fields.len() && i < values.len()
        invariant
            i <= fields.len(),
            i <= values.len(),
            data == data_of(values@),
            first_mismatch(fields@, data) == first_mismatch(
                fields@.skip(i as int),
                data.skip(i as int),
            ),
        decreases fields.len() - i,
    {
        proof {
            assert(fields@.skip(i as int).skip(1) =~= fields@.skip(i + 1));
            assert(data.skip(i as int).skip(1) =~= data.skip(i + 1));
        }
        match values[i].check(&fields[i]) {
            Err(e) => {
                return Err(e);
            },
            Ok(()) => {},
        }
        i = i + 1;
    }
    Ok(())
}

/// What is wrong with the definition of a structure, if anything: its
/// tags do not ascend, or its digest stands behind more fields than there
/// are.
pub open spec fn struct_fault(fields: Seq<Attrs>, digest_at: Option<nat>) -> Option<Error> {
    if !ascending(fields) {
        Some(Error::TagOutOfOrder)
    } else if digest_at is Some && digest_at->Some_0 > fields.len() {
        Some(Error::DigestOutOfPlace)
    } else {
        None
    }
}

/// What a digest holds, if there is one.
pub open spec fn digest_view(digest: Option<Vec<u8>>) -> Option<Seq<u8>> {
    match digest {
        Some(d) => Some(d@),
        None => None,
    }
}

/// What an optional count is, as mathematics.
pub open spec fn count_view(count: Option<usize>) -> Option<nat> {
    match count {
        Some(n) => Some(n as nat),
        None => None,
    }
}

/// The codec of a structure, derived from the attributes of its fields.
pub struct DeriveStruct {
    /// The fields, in the order of the definition
    fields: Vec<Attrs>,
    /// Number of fields before the digest, where the definition has one
    digest_at: Option<usize>,
}

impl DeriveStruct {
    /// The fields, in the order of the definition.
    pub closed spec fn fields(&self) -> Seq<Attrs> {
        self.fields@
    }

    /// Number of fields before the digest, where the definition has one.
    pub closed spec fn digest_at(&self) -> Option<nat> {
        count_view(self.digest_at)
    }

    /// The definition is sound.
    pub open spec fn wf(&self) -> bool {
        struct_fault(self.fields(), self.digest_at()) is None
    }

    /// Derives the codec of the structure whose fields have the attributes
    /// `fields`, in this order, and whose digest, if it has one, stands
    /// behind the first `digest_at` of them.
    pub fn derive(fields: Vec<Attrs>, digest_at: Option<usize>) -> (r: Result<DeriveStruct, Error>)
        ensures
            match struct_fault(fields@, count_view(digest_at)) {
                Some(e) => r matches Err(found) && found == e,
                None => {
                    &&& r matches Ok(codec)
                    &&& codec.wf()
                    &&& codec.fields() == fields@
                    &&& codec.digest_at() == count_view(digest_at)
                },
            },
    {
        if !is_ascending(fields.as_slice()) {
            return Err(Error::TagOutOfOrder);
        }
        match digest_at {
            Some(at) => {
                if at > fields.len() {
                    return Err(Error::DigestOutOfPlace);
                }
            },
            None => {},
        }
        Ok(DeriveStruct { fields, digest_at })
    }

    /// Decodes `input` as this structure: what its fields hold, in the
    /// order of the definition, and its digest, where the definition has
    /// one.
    #[verifier::rlimit(50)]
    pub fn decode<A: Accumulator>(&self, input: &[u8]) -> (r: Result<
        (Vec<Value>, Option<Vec<u8>>),
        Error,
    >)
        requires
            self.wf(),
        ensures
            match read_struct::<A>(self.fields(), self.digest_at(), input@) {
                Ok(decoded) => {
                    &&& r matches Ok((values, digest))
                    &&& data_of(values@) == decoded.data
                    &&& digest_view(digest) == decoded.digest
                },
                Err(e) => r matches Err(found) && found == e,
            },
    {
        let mut decoder: Decoder<'_, A> = Decoder::new(input);
        let all: &[Attrs] = self.fields.as_slice();
        let at: usize = match self.digest_at {
            Some(at) => at,
            None => all.len(),
        };
        proof {
            assert(decoder.remaining() =~= input@);
        }
        let mut values = match decode_fields::<A>(&mut decoder, slice_subrange(all, 0, at)) {
            Err(e) => {
                return Err(e);
            },
            Ok(values) => values,
        };
        let ghost head = read_fields::<A>(self.fields().take(at as int), input@, None)->Ok_0;
        proof {
            assert(Seq::<u8>::empty() + head.folded =~= head.folded);
        }
        let digest: Option<Vec<u8>> = match self.digest_at {
            Some(_) => Some(decoder.fill_digest()),
            None => None,
        };
        let mut others = match decode_fields::<A>(
            &mut decoder,
            slice_subrange(all, at, all.len()),
        ) {
            Err(e) => {
                return Err(e);
            },
            Ok(others) => others,
        };
        match decoder.finish() {
            Err(e) => {
                return Err(e);
            },
            Ok(()) => {},
        }
        let ghost first = data_of(values@);
        let ghost second = data_of(others@);
        values.append(&mut others);
        proof {
            assert(data_of(values@) =~= first + second);
        }
        Ok((values, digest))
    }

    /// Get the length of the structure that holds `values` after being
    /// encoded, where each field can hold its value.
    pub fn encoded_len(&self, values: &[Value]) -> (r: Result<usize, Error>)
        ensures
            match measure(self.fields(), data_of(values@)) {
                Err(e) => r == Err::<usize, Error>(e),
                Ok(len) => {
                    if len > usize::MAX {
                        r == Err::<usize, Error>(Error::BufferTooSmall)
                    } else {
                        r == Ok::<usize, Error>(len as usize)
                    }
                },
            },
            measure(self.fields(), data_of(values@)) matches Ok(len) ==> len == fields_encoding(
                self.fields(),
                data_of(values@),
            ).len(),
    {
        let fields: &[Attrs] = self.fields.as_slice();
        let ghost data = data_of(values@);
        proof {
            lemma_fields_len(fields@, data);
        }
        if fields.len() != values.len() {
            return Err(Error::FieldCount);
        }
        match check_values(fields, values) {
            Err(e) => {
                return Err(e);
            },
            Ok(()) => {},
        }
        let mut total: usize = 0;
        let mut i: usize = 0;
        while i < fields.len()
            invariant
                i <= fields.len(),
                fields.len() == values.len(),
                fields@ == self.fields(),
                data == data_of(values@),
                first_mismatch(fields@, data) is Ok,
                fields_encoding(fields@, data).len() == fields_len(fields@, data),
                total == fields_len(fields@.take(i as int), data.take(i as int)),
            decreases fields.len() - i,
        {
            proof {
                lemma_fields_push(fields@, data, i as nat);
                lemma_fields_len_grows(fields@, data, (i + 1) as nat);
            }
            match encoded_len_for_field(fields[i].tag(), &values[i]) {
                None => {
                    return Err(Error::BufferTooSmall);
                },
                Some(len) => {
                    if len > usize::MAX - total {
                        return Err(Error::BufferTooSmall);
                    }
                    total = total + len;
                },
            }
            i = i + 1;
        }
        proof {
            assert(fields@.take(i as int) =~= fields@);
            assert(data.take(i as int) =~= data);
        }
        Ok(total)
    }

    /// Encodes the structure that holds `values` into the provided buffer,
    /// returning a slice containing the encoded message on success. Nothing
    /// is written unless all of it can be.
    #[verifier::rlimit(50)]
    pub fn encode<'a>(&self, values: &[Value], buffer: &'a mut [u8]) -> (r: Result<
        &'a [u8],
        Error,
    >)
        requires
            self.wf(),
        ensures
            match measure(self.fields(), data_of(values@)) {
                Err(e) => r matches Err(found) && found == e,
                Ok(len) => {
                    if len > old(buffer)@.len() {
                        r matches Err(found) && found == Error::BufferTooSmall
                    } else {
                        r matches Ok(written) && written@ == fields_encoding(
                            self.fields(),
                            data_of(values@),
                        ) && written@.len() == len
                    }
                },
            },
    {
        let fields: &[Attrs] = self.fields.as_slice();
        let capacity: usize = buffer.len();
        let ghost data = data_of(values@);
        let total: usize = match self.encoded_len(values) {
            Err(e) => {
                return Err(e);
            },
            Ok(total) => total,
        };
        if total > capacity {
            return Err(Error::BufferTooSmall);
        }
        let mut encoder = Encoder::new(buffer);
        let mut i: usize = 0;
        proof {
            assert(encoder.written() =~= Seq::<u8>::empty());
        }
        while i < fields.len()
            invariant
                i <= fields.len(),
                fields.len() == values.len(),
                fields@ == self.fields(),
                ascending(fields@),
                data == data_of(values@),
                first_mismatch(fields@, data) is Ok,
                encoder.wf(),
                fields_len(fields@, data) <= encoder.capacity(),
                encoder.position() == fields_len(fields@.take(i as int), data.take(i as int)),
                encoder.written() == fields_encoding(fields@.take(i as int), data.take(i as int)),
                i == 0 ==> encoder.last_tag() is None,
                i > 0 ==> encoder.last_tag() == Some(fields@[i - 1].spec_tag()),
            decreases fields.len() - i,
        {
            proof {
                lemma_fields_push(fields@, data, i as nat);
                lemma_fields_len_grows(fields@, data, (i + 1) as nat);
                lemma_no_mismatch(fields@, data, i as nat);
                lemma_field_len_of_datum(fields@[i as int].spec_tag(), data[i as int]);
            }
            match encode_field(&mut encoder, &fields[i], &values[i]) {
                Err(e) => {
                    return Err(e);
                },
                Ok(()) => {},
            }
            i = i + 1;
        }
        proof {
            assert(fields@.take(i as int) =~= fields@);
            assert(data.take(i as int) =~= data);
        }
        Ok(encoder.finish())
    }
}

/// Whether no two of the alternatives have the same tag.
pub open spec fn distinct(variants: Seq<Attrs>) -> bool {
    forall|i: int, j: int|
        0 <= i < j < variants.len() ==> (#[trigger] variants[i]).spec_tag() != (
        #[trigger] variants[j]).spec_tag()
}

/// Whether no two of the alternatives have the same tag.
pub fn is_distinct(variants: &[Attrs]) -> (r: bool)
    ensures
        r == distinct(variants@),
{
    let mut i: usize = 0;
    while i < variants.len()
        invariant
            i <= variants.len(),
            forall|a: int, b: int|
                0 <= a < b < variants@.len() && a < i ==> (#[trigger] variants@[a]).spec_tag() != (
                #[trigger] variants@[b]).spec_tag(),
        decreases variants.len() - i,
    {
        let mut j: usize = i + 1;
        while j < variants.len()
            invariant
                i < j <= variants.len(),
                forall|a: int, b: int|
                    0 <= a < b < variants@.len() && a < i ==> (
                    #[trigger] variants@[a]).spec_tag() != (#[trigger] variants@[b]).spec_tag(),
                forall|b: int|
                    i < b < j ==> variants@[i as int].spec_tag() != (
                    #[trigger] variants@[b]).spec_tag(),
            decreases variants.len() - j,
        {
            if variants[i].tag() == variants[j].tag() {
                proof {
                    assert(variants@[i as int].spec_tag() == variants@[j as int].spec_tag());
                }
                return false;
            }
            j = j + 1;
        }
        i = i + 1;
    }
    true
}

/// The first of the alternatives that has tag `tag`, if one has.
pub open spec fn variant_of(variants: Seq<Attrs>, tag: u64) -> Option<nat>
    decreases variants.len(),
{
    if variants.len() == 0 {
        None
    } else if variants[0].spec_tag() == tag {
        Some(0)
    } else {
        match variant_of(variants.skip(1), tag) {
            Some(index) => Some((index + 1) as nat),
            None => None,
        }
    }
}

/// What decoding `input` as an enumeration with these alternatives gives:
/// which alternative it is, and what it holds.
///
/// The leading tag selects the alternative. The input has to be that one
/// field and nothing more.
pub open spec fn read_enum<A: Accumulator>(variants: Seq<Attrs>, input: Seq<u8>) -> Result<
    (nat, Datum),
    Error,
> {
    match parse_header(input) {
        Err(e) => Err(e),
        Ok((header, _)) => match variant_of(variants, header.tag) {
            None => Err(Error::UnknownTag),
            Some(index) => match read_datum::<A>(input, None, variants[index as int]) {
                Err(e) => Err(e),
                Ok(reading) => {
                    if reading.end == input.len() {
                        Ok((index, reading.datum))
                    } else {
                        Err(Error::TrailingData)
                    }
                },
            },
        },
    }
}

/// The length of the encoding of alternative `variant`, holding `datum`,
/// or why there is no encoding.
pub open spec fn measure_variant(variants: Seq<Attrs>, variant: nat, datum: Datum) -> Result<
    nat,
    Error,
> {
    if variant >= variants.len() {
        Err(Error::UnknownTag)
    } else {
        match mismatch(variants[variant as int], datum) {
            Err(e) => Err(e),
            Ok(()) => Ok(datum.field_len(variants[variant as int].spec_tag())),
        }
    }
}

/// The codec of an enumeration, derived from the attributes of its
/// alternatives.
pub struct DeriveEnum {
    /// The alternatives, in the order of the definition
    variants: Vec<Attrs>,
}

impl DeriveEnum {
    /// The alternatives, in the order of the definition.
    pub closed spec fn variants(&self) -> Seq<Attrs> {
        self.variants@
    }

    /// The definition is sound: no two alternatives have the same tag.
    pub open spec fn wf(&self) -> bool {
        distinct(self.variants())
    }

    /// Derives the codec of the enumeration whose alternatives have the
    /// attributes `variants`, in this order.
    pub fn derive(variants: Vec<Attrs>) -> (r: Result<DeriveEnum, Error>)
        ensures
            distinct(variants@) ==> (r matches Ok(codec) && codec.wf() && codec.variants()
                == variants@),
            !distinct(variants@) ==> (r matches Err(found) && found == Error::TagOutOfOrder),
    {
        if !is_distinct(variants.as_slice()) {
            return Err(Error::TagOutOfOrder);
        }
        Ok(DeriveEnum { variants })
    }

    /// The first of the alternatives that has tag `tag`, if one has.
    pub fn variant(&self, tag: u64) -> (r: Option<usize>)
        ensures
            count_view(r) == variant_of(self.variants(), tag),
            r matches Some(index) ==> index < self.variants().len() && self.variants()[index as int].spec_tag()
                == tag,
    {
        let ghost all = self.variants@;
        let mut i: usize = 0;
        proof {
            assert(all.skip(0) =~= all);
        }
        while i < self.variants.len()
            invariant
                i <= self.variants.len(),
                all == self.variants@,
                variant_of(all, tag) == (match variant_of(all.skip(i as int), tag) {
                    Some(index) => Some((index + i) as nat),
                    None => None,
                }),
            decreases self.variants.len() - i,
        {
            proof {
                assert(all.skip(i as int).skip(1) =~= all.skip(i + 1));
                assert(all.skip(i as int)[0] == all[i as int]);
            }
            if self.variants[i].tag() == tag {
                return Some(i);
            }
            i = i + 1;
        }
        None
    }

    /// Decodes `input` as this enumeration: which alternative it is, by its
    /// place in the definition, and what it holds.
    pub fn decode<A: Accumulator>(&self, input: &[u8]) -> (r: Result<(usize, Value), Error>)
        ensures
            match read_enum::<A>(self.variants(), input@) {
                Ok((index, datum)) => {
                    &&& r matches Ok((variant, value))
                    &&& variant == index
                    &&& value@ == datum
                },
                Err(e) => r matches Err(found) && found == e,
            },
    {
        let mut decoder: Decoder<'_, A> = Decoder::new(input);
        proof {
            assert(decoder.remaining() =~= input@);
        }
        let tag: u64 = match decoder.peek_tag() {
            Err(e) => {
                return Err(e);
            },
            Ok(tag) => tag,
        };
        let variant: usize = match self.variant(tag) {
            None => {
                return Err(Error::UnknownTag);
            },
            Some(variant) => variant,
        };
        let value = match decode_field::<A>(&mut decoder, &self.variants[variant]) {
            Err(e) => {
                return Err(e);
            },
            Ok(value) => value,
        };
        match decoder.check_input_consumed() {
            Err(e) => Err(e),
            Ok(()) => Ok((variant, value)),
        }
    }

    /// Get the length of alternative `variant` that holds `value` after
    /// being encoded.
    pub fn encoded_len(&self, variant: usize, value: &Value) -> (r: Result<usize, Error>)
        ensures
            match measure_variant(self.variants(), variant as nat, value@) {
                Err(e) => r == Err::<usize, Error>(e),
                Ok(len) => {
                    if len > usize::MAX {
                        r == Err::<usize, Error>(Error::BufferTooSmall)
                    } else {
                        r == Ok::<usize, Error>(len as usize)
                    }
                },
            },
    {
        if variant >= self.variants.len() {
            return Err(Error::UnknownTag);
        }
        match value.check(&self.variants[variant]) {
            Err(e) => {
                return Err(e);
            },
            Ok(()) => {},
        }
        match encoded_len_for_field(self.variants[variant].tag(), value) {
            None => Err(Error::BufferTooSmall),
            Some(len) => Ok(len),
        }
    }

    /// Encodes alternative `variant` that holds `value` into the provided
    /// buffer, returning a slice containing the encoded message on success.
    pub fn encode<'a>(&self, variant: usize, value: &Value, buffer: &'a mut [u8]) -> (r: Result<
        &'a [u8],
        Error,
    >)
        ensures
            match measure_variant(self.variants(), variant as nat, value@) {
                Err(e) => r matches Err(found) && found == e,
                Ok(len) => {
                    if len > old(buffer)@.len() {
                        r matches Err(found) && found == Error::BufferTooSmall
                    } else {
                        r matches Ok(written) && written@ == value@.field(
                            self.variants()[variant as int].spec_tag(),
                            self.variants()[variant as int].spec_is_critical(),
                        ) && written@.len() == len
                    }
                },
            },
    {
        if variant >= self.variants.len() {
            return Err(Error::UnknownTag);
        }
        let attrs: &Attrs = &self.variants[variant];
        proof {
            lemma_field_len_of_datum(attrs.spec_tag(), value@);
        }
        let mut encoder = Encoder::new(buffer);
        proof {
            assert(encoder.written() =~= Seq::<u8>::empty());
        }
        match encode_field(&mut encoder, attrs, value) {
            Err(e) => Err(e),
            Ok(()) => {
                proof {
                    assert(Seq::<u8>::empty() + value@.field(
                        attrs.spec_tag(),
                        attrs.spec_is_critical(),
                    ) =~= value@.field(attrs.spec_tag(), attrs.spec_is_critical()));
                }
                Ok(encoder.finish())
            },
        }
    }
}

} // verus!
