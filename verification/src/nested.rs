//! Fields that hold messages: one nested message, or a sequence of them.
//!
//! A nested message counts in its parent's digest by its bytes. A sequence
//! counts by the digests of its elements, folded in order behind the
//! field's header, so that the parent's digest is a function of the
//! elements' digests.

use vstd::prelude::*;
use crate::decoder::{Cursor, Decoder};
use crate::digest::Accumulator;
use crate::encoder::Encoder;
use crate::error::Error;
use crate::field::SizeBounds;
use crate::message::{blank, hash_of_type, Message};
use crate::value::Datum;
use crate::sequence::{bodies, views};
use crate::wire::{message_field, read_message, read_sequence, sequence_field, skip_rest, Body};

verus! {

/// The encodings of the messages, in order.
pub open spec fn encodings<M: Message>(messages: Seq<M>) -> Seq<Seq<u8>> {
    messages.map_values(|m: M| m.encoding())
}

/// The digest that stands for a message whose decoder is left in the state
/// `after` and then passes what is left of the input: the digest that was
/// filled in, or else the digest of everything folded, what is left of the
/// input with it.
pub open spec fn digest_of<A: Accumulator>(after: Cursor) -> Seq<u8> {
    match after.digest {
        Some(digest) => digest,
        None => A::hash(after.transcript + after.remaining()),
    }
}

/// Decodes the message that `input` is the encoding of: the message, and
/// the digest that stands for it where it is an element of a sequence.
///
/// Fields that the message type does not ask for are passed where they
/// come last, too.
pub fn decode_element<M: Message, A: Accumulator>(input: &[u8]) -> (r: Result<(M, Vec<u8>), Error>)
    ensures
        match element::<M, A>(input@) {
            Ok((data, digest)) => r matches Ok(found) && found.0.holds() == data && found.1@
                == digest,
            Err(e) => r matches Err(found) && found == e,
        },
{
    let mut decoder: Decoder<'_, A> = Decoder::new(input);
    match M::decode(&mut decoder) {
        Err(e) => Err(e),
        Ok(message) => {
            match decoder.finish() {
                Err(e) => Err(e),
                Ok(()) => Ok((message, decoder.element_digest())),
            }
        },
    }
}

/// Decodes the nested message in the field with tag `tag`.
///
/// The field has to be found and complete, and the length of its value
/// within `bounds`; the decoder has then passed it, and folded its bytes
/// into the digest. The message is what its value decodes to.
pub fn decode_message<'a, M: Message, A: Accumulator>(
    decoder: &mut Decoder<'a, A>,
    tag: u64,
    bounds: &SizeBounds,
) -> (r: Result<M, Error>)
    requires
        old(decoder).wf(),
    ensures
        final(decoder).wf(),
        final(decoder).input() == old(decoder).input(),
        match read_message(old(decoder).remaining(), old(decoder).last_tag(), tag, *bounds) {
            Ok(body) => {
                &&& final(decoder).consumed(*old(decoder), body.end, tag)
                &&& match element::<M, A>(body.bytes) {
                    Ok((data, _)) => r matches Ok(found) && found.holds() == data,
                    Err(e) => r matches Err(found) && found == e,
                }
            },
            Err(e) => r matches Err(found) && found == e,
        },
{
    match decoder.decode_message(tag, bounds) {
        Err(e) => Err(e),
        Ok(body) => {
            match decode_element::<M, A>(body) {
                Err(e) => Err(e),
                Ok((message, _)) => Ok(message),
            }
        },
    }
}

/// Decodes the messages in the sequence field with tag `tag`.
///
/// The field has to be found, complete and well divided, and the length of
/// its value within `bounds`. Its elements are decoded in order, up to the
/// first that fails. Where none fails, the decoder has passed the field,
/// and folded into the digest what lies before the field's value and then
/// the elements' digests.
#[verifier::rlimit(50)]
pub fn decode_message_seq<'a, M: Message, A: Accumulator>(
    decoder: &mut Decoder<'a, A>,
    tag: u64,
    bounds: &SizeBounds,
) -> (r: Result<Vec<M>, Error>)
    requires
        old(decoder).wf(),
    ensures
        final(decoder).wf(),
        final(decoder).input() == old(decoder).input(),
        match read_sequence(old(decoder).remaining(), old(decoder).last_tag(), tag, *bounds) {
            Ok((body, parts)) => match elements::<M, A>(parts) {
                Ok((messages, digests)) => {
                    &&& r matches Ok(found) && contents(found@) == messages
                    &&& final(decoder).advanced(
                        *old(decoder),
                        body.end,
                        tag,
                        old(decoder).remaining().take(body.start as int) + digests,
                    )
                },
                Err(e) => r matches Err(found) && found == e,
            },
            Err(e) => r matches Err(found) && found == e,
        },
{
    let parts = match decoder.decode_sequence(tag, bounds) {
        Err(e) => return Err(e),
        Ok(parts) => parts,
    };
    let ghost all = views(parts@);
    let ghost body = read_sequence(old(decoder).remaining(), old(decoder).last_tag(), tag, *bounds)->Ok_0.0;
    let ghost before = old(decoder).remaining().take(body.start as int);
    let ghost header_part = decoder.transcript();
    let ghost after = *decoder;
    let ghost mut digests: Seq<u8> = Seq::empty();
    let mut messages: Vec<M> = Vec::new();
    let mut i: usize = 0;
    proof {
        assert(header_part + digests =~= header_part);
        assert(all.skip(0) =~= all);
        assert(contents(messages@) =~= Seq::<Seq<Datum>>::empty());
        lemma_elements_begin::<M, A>(all);
    }
    while i < parts.len()
        invariant
            i <= parts.len(),
            all == views(parts@),
            read_sequence(old(decoder).remaining(), old(decoder).last_tag(), tag, *bounds) == Ok::<
                (Body, Seq<Seq<u8>>),
                Error,
            >((body, all)),
            after.advanced(*old(decoder), body.end, tag, before),
            before == old(decoder).remaining().take(body.start as int),
            header_part == after.transcript(),
            decoder.wf(),
            decoder.input() == after.input(),
            decoder.position() == after.position(),
            decoder.last_tag() == after.last_tag(),
            decoder.digest() == after.digest(),
            decoder.transcript() == header_part + digests,
            elements::<M, A>(all) == behind(
                contents(messages@),
                digests,
                elements::<M, A>(all.skip(i as int)),
            ),
        decreases parts.len() - i,
    {
        proof {
            lemma_elements_step::<M, A>(all, i as nat, contents(messages@), digests);
        }
        match decode_element::<M, A>(parts[i]) {
            Err(e) => {
                return Err(e);
            },
            Ok((message, digest)) => {
                let ghost earlier = contents(messages@);
                decoder.fold_digest(digest.as_slice());
                messages.push(message);
                proof {
                    assert(contents(messages@) =~= earlier.push(message.holds()));
                    assert(header_part + (digests + digest@) =~= (header_part + digests)
                        + digest@);
                    digests = digests + digest@;
                }
            },
        }
        i = i + 1;
    }
    proof {
        lemma_elements_end::<M, A>(all, contents(messages@), digests);
        assert(old(decoder).transcript() + (before + digests) =~= (old(decoder).transcript()
            + before) + digests);
    }
    Ok(messages)
}

/// Appends a field that holds `message`.
///
/// The message is encoded first, into a buffer of its own of just its
/// length; where that fails, nothing is written. Where it succeeds, the
/// result is that of appending the field.
pub fn encode_message<M: Message>(
    encoder: &mut Encoder<'_>,
    tag: u64,
    critical: bool,
    message: &M,
) -> (r: Result<(), Error>)
    requires
        old(encoder).wf(),
        message.encoding().len() <= usize::MAX,
    ensures
        match message.refusal(blank(message.encoding().len())) {
            Some(e) => r == Err::<(), Error>(e) && final(encoder).unchanged(*old(encoder)),
            None => final(encoder).appends(
                *old(encoder),
                tag,
                message_field(tag, critical, message.encoding()),
                r,
            ),
        },
{
    proof {
        assert(encoder.written() + Seq::<u8>::empty() =~= encoder.written());
    }
    match message.encode_vec() {
        Err(e) => Err(e),
        Ok(body) => encoder.message(tag, critical, body.as_slice()),
    }
}

/// Appends a field that holds the sequence `messages`.
///
/// The messages are encoded first, in order; where one fails, nothing is
/// written. Where none fails, the result is that of appending the field.
pub fn encode_message_seq<M: Message>(
    encoder: &mut Encoder<'_>,
    tag: u64,
    critical: bool,
    messages: &[M],
) -> (r: Result<(), Error>)
    requires
        old(encoder).wf(),
        forall|i: int| 0 <= i < messages@.len() ==> (#[trigger] messages@[i]).encoding().len()
            <= usize::MAX,
    ensures
        match first_refusal(messages@) {
            Some(e) => r == Err::<(), Error>(e) && final(encoder).unchanged(*old(encoder)),
            None => final(encoder).appends(
                *old(encoder),
                tag,
                sequence_field(tag, critical, encodings(messages@)),
                r,
            ),
        },
{
    proof {
        assert(encoder.written() + Seq::<u8>::empty() =~= encoder.written());
        assert(messages@.skip(0) =~= messages@);
    }
    let mut elements: Vec<Vec<u8>> = Vec::new();
    let mut i: usize = 0;
    while i < messages.len()
        invariant
            i <= messages.len(),
            elements@.len() == i,
            encoder.unchanged(*old(encoder)),
            first_refusal(messages@) == first_refusal(messages@.skip(i as int)),
            forall|j: int| 0 <= j < i ==> (#[trigger] elements@[j])@ == messages@[j].encoding(),
            forall|j: int| 0 <= j < messages@.len() ==> (#[trigger] messages@[j]).encoding().len()
                <= usize::MAX,
        decreases messages.len() - i,
    {
        proof {
            assert(messages@.skip(i as int)[0] == messages@[i as int]);
            assert(messages@.skip(i as int).skip(1) =~= messages@.skip(i + 1));
        }
        match messages[i].encode_vec() {
            Err(e) => {
                return Err(e);
            },
            Ok(body) => {
                elements.push(body);
            },
        }
        i = i + 1;
    }
    proof {
        assert(bodies(elements@) =~= encodings(messages@));
    }
    encoder.sequence(tag, critical, elements.as_slice())
}

/// What decoding `input` as a message of its own gives: what the message
/// holds and the digest that stands for it, where the message type decodes it from
/// the start and what it leaves of the input can be passed.
pub open spec fn element<M: Message, A: Accumulator>(input: Seq<u8>) -> Result<
    (Seq<Datum>, Seq<u8>),
    Error,
> {
    let (decoded, after) = M::decoded(Cursor::start(input), hash_of_type::<A>());
    match decoded {
        Err(e) => Err(e),
        Ok(data) => match skip_rest(after.remaining(), after.last_tag) {
            Err(e) => Err(e),
            Ok(()) => Ok((data, digest_of::<A>(after))),
        },
    }
}

/// What the messages hold, in order.
pub open spec fn contents<M: Message>(messages: Seq<M>) -> Seq<Seq<Datum>> {
    messages.map_values(|m: M| m.holds())
}

/// `found`, with `messages` before the messages and `digests` before the
/// digests that it holds.
pub open spec fn behind(
    messages: Seq<Seq<Datum>>,
    digests: Seq<u8>,
    found: Result<(Seq<Seq<Datum>>, Seq<u8>), Error>,
) -> Result<(Seq<Seq<Datum>>, Seq<u8>), Error> {
    match found {
        Err(e) => Err(e),
        Ok((more, folded)) => Ok((messages + more, digests + folded)),
    }
}

/// What decoding each of `inputs` as a message of its own gives, in order,
/// up to the first that fails: what the messages hold, and their digests
/// one after the other.
pub open spec fn elements<M: Message, A: Accumulator>(inputs: Seq<Seq<u8>>) -> Result<
    (Seq<Seq<Datum>>, Seq<u8>),
    Error,
>
    decreases inputs.len(),
{
    if inputs.len() == 0 {
        Ok((Seq::empty(), Seq::empty()))
    } else {
        match element::<M, A>(inputs[0]) {
            Err(e) => Err(e),
            Ok((message, digest)) => behind(
                seq![message],
                digest,
                elements::<M, A>(inputs.skip(1)),
            ),
        }
    }
}

/// Why the first of `messages` that cannot be encoded into a buffer of
/// just its length cannot, if there is one.
pub open spec fn first_refusal<M: Message>(messages: Seq<M>) -> Option<Error>
    decreases messages.len(),
{
    if messages.len() == 0 {
        None
    } else {
        match messages[0].refusal(blank(messages[0].encoding().len())) {
            Some(e) => Some(e),
            None => first_refusal(messages.skip(1)),
        }
    }
}

/// With nothing decoded yet, what is to come is all there is.
pub proof fn lemma_elements_begin<M: Message, A: Accumulator>(inputs: Seq<Seq<u8>>)
    ensures
        elements::<M, A>(inputs) == behind(
            Seq::empty(),
            Seq::empty(),
            elements::<M, A>(inputs),
        ),
{
    let all = elements::<M, A>(inputs);
    if all is Ok {
        assert(Seq::<Seq<Datum>>::empty() + all->Ok_0.0 =~= all->Ok_0.0);
        assert(Seq::<u8>::empty() + all->Ok_0.1 =~= all->Ok_0.1);
    }
}

/// With `count` elements decoded, decoding goes on with the next: where it
/// fails, all fails with it; where it succeeds, its message and its digest
/// join those before.
pub proof fn lemma_elements_step<M: Message, A: Accumulator>(
    inputs: Seq<Seq<u8>>,
    count: nat,
    messages: Seq<Seq<Datum>>,
    digests: Seq<u8>,
)
    requires
        count < inputs.len(),
        elements::<M, A>(inputs) == behind(
            messages,
            digests,
            elements::<M, A>(inputs.skip(count as int)),
        ),
    ensures
        match element::<M, A>(inputs[count as int]) {
            Err(e) => elements::<M, A>(inputs) == Err::<(Seq<Seq<Datum>>, Seq<u8>), Error>(e),
            Ok((message, digest)) => elements::<M, A>(inputs) == behind(
                messages.push(message),
                digests + digest,
                elements::<M, A>(inputs.skip(count as int + 1)),
            ),
        },
{
    let left = inputs.skip(count as int);
    assert(left[0] == inputs[count as int]);
    assert(left.skip(1) =~= inputs.skip(count as int + 1));
    if element::<M, A>(inputs[count as int]) is Ok {
        let (message, digest) = element::<M, A>(inputs[count as int])->Ok_0;
        let rest = elements::<M, A>(left.skip(1));
        if rest is Ok {
            let (more, folded) = rest->Ok_0;
            assert(messages + (seq![message] + more) =~= messages.push(message) + more);
            assert(digests + (digest + folded) =~= (digests + digest) + folded);
        }
    }
}

/// With all elements decoded, what was decoded is all there is.
pub proof fn lemma_elements_end<M: Message, A: Accumulator>(
    inputs: Seq<Seq<u8>>,
    messages: Seq<Seq<Datum>>,
    digests: Seq<u8>,
)
    requires
        elements::<M, A>(inputs) == behind(
            messages,
            digests,
            elements::<M, A>(inputs.skip(inputs.len() as int)),
        ),
    ensures
        elements::<M, A>(inputs) == Ok::<(Seq<Seq<Datum>>, Seq<u8>), Error>((messages, digests)),
{
    assert(messages + Seq::<Seq<Datum>>::empty() =~= messages);
    assert(digests + Seq::<u8>::empty() =~= digests);
}

} // verus!
