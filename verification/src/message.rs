//! What a message is made of.

use vstd::prelude::*;
use vstd::slice::slice_to_vec;
use crate::decoder::{Cursor, Decoder};
use crate::digest::Accumulator;
use crate::error::Error;
use crate::value::Datum;

verus! {

/// Messages.
///
/// A message type decodes, encodes and measures itself by calls of the
/// decoder, the encoder and the length functions, one per field, in
/// ascending tag order. A type that is verified says what its encoding is,
/// what it holds, and what its methods give.
pub trait Message: Sized {
    /// The encoding of this message.
    open spec fn encoding(&self) -> Seq<u8> {
        arbitrary()
    }

    /// What this message holds, member by member.
    open spec fn holds(&self) -> Seq<Datum> {
        arbitrary()
    }

    /// Why `encode` fails on this message with a buffer that holds
    /// `buffer`, if it fails.
    open spec fn refusal(&self, buffer: Seq<u8>) -> Option<Error> {
        arbitrary()
    }

    /// What `decode` gives with a decoder in the state `before` whose
    /// digest is computed by `hash`: what the decoded message holds, and
    /// the state in which the decoder is left where decoding succeeds.
    open spec fn decoded(before: Cursor, hash: spec_fn(Seq<u8>) -> Seq<u8>) -> (
        Result<Seq<Datum>, Error>,
        Cursor,
    ) {
        arbitrary()
    }

    /// Decode a message from the input of the given [`Decoder`].
    fn decode<A: Accumulator>(decoder: &mut Decoder<'_, A>) -> (r: Result<Self, Error>)
        requires
            old(decoder).wf(),
        ensures
            final(decoder).wf(),
            final(decoder).input() == old(decoder).input(),
            match Self::decoded(old(decoder).state(), hash_of_type::<A>()).0 {
                Ok(data) => r matches Ok(message) && message.holds() == data,
                Err(e) => r matches Err(found) && found == e,
            },
            r is Ok ==> final(decoder).state() == Self::decoded(
                old(decoder).state(),
                hash_of_type::<A>(),
            ).1,
    ;

    /// Encode this message into the provided buffer, returning a slice
    /// containing the encoded message on success.
    fn encode<'a>(&self, buffer: &'a mut [u8]) -> (r: Result<&'a [u8], Error>)
        ensures
            match self.refusal(old(buffer)@) {
                Some(e) => r matches Err(found) && found == e,
                None => r matches Ok(written) && written@ == self.encoding(),
            },
    ;

    /// Get the length of a message after being encoded. The length has to
    /// be one that a `usize` can hold.
    fn encoded_len(&self) -> (len: usize)
        requires
            self.encoding().len() <= usize::MAX,
        ensures
            len == self.encoding().len(),
    ;

    /// Encode this message, allocating and returning a byte vector on
    /// success.
    fn encode_vec(&self) -> (r: Result<Vec<u8>, Error>)
        requires
            self.encoding().len() <= usize::MAX,
        ensures
            match self.refusal(blank(self.encoding().len())) {
                Some(e) => r matches Err(found) && found == e,
                None => r matches Ok(encoded) && encoded@ == self.encoding(),
            },
    {
        let mut buffer: Vec<u8> = vec![0u8; self.encoded_len()];
        proof {
            assert(buffer@ =~= blank(self.encoding().len()));
        }
        match self.encode(buffer.as_mut_slice()) {
            Err(e) => Err(e),
            Ok(written) => Ok(slice_to_vec(written)),
        }
    }
}

/// A buffer of `len` zero bytes.
pub open spec fn blank(len: nat) -> Seq<u8> {
    Seq::new(len, |i: int| 0u8)
}

/// The hash function that accumulators of type `A` compute.
pub open spec fn hash_of_type<A: Accumulator>() -> spec_fn(Seq<u8>) -> Seq<u8> {
    |data: Seq<u8>| A::hash(data)
}

/// Elements of a message (used for errors)
#[derive(Copy, Clone, Debug, PartialEq, Eq, Structural)]
pub enum Element {
    /// Length delimiters for dynamically sized fields
    LengthDelimiter,
    /// Headers of sequences
    SequenceHeader,
    /// Tags identify the types of fields
    Tag,
    /// Field values (i.e. inside the body of a field value)
    Value,
}

} // verus!
