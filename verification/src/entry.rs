//! An entry: the smallest message that carries a digest. It shows what a
//! message type states of itself, and that what it states can be proved.

use vstd::prelude::*;
use crate::decoder::{Cursor, Decoder};
use crate::digest::Accumulator;
use crate::encoder::Encoder;
use crate::error::Error;
use crate::length;
use crate::message::{hash_of_type, Message};
use crate::value::Datum;
use crate::wire::{last_passed, read_uint64, skip_rest, uint64_field};

verus! {

/// The tag of an entry's number.
pub const NUMBER: u64 = 1;

/// A number, and the digest of the bytes that it was decoded from.
#[derive(Clone, Debug, PartialEq, Eq)]
pub struct Entry {
    /// The number
    pub number: u64,
    /// The digest, where the entry was decoded
    pub digest: Option<Vec<u8>>,
}

impl Entry {
    /// An entry that holds `number` and no digest.
    pub fn new(number: u64) -> (entry: Entry)
        ensures
            entry.number == number,
            entry.digest is None,
    {
        Entry { number, digest: None }
    }
}

impl Message for Entry {
    /// One field: the number.
    open spec fn encoding(&self) -> Seq<u8> {
        uint64_field(NUMBER, false, self.number)
    }

    /// The number and, where there is one, the digest.
    open spec fn holds(&self) -> Seq<Datum> {
        match self.digest {
            Some(digest) => seq![Datum::UInt64(self.number), Datum::Bytes(digest@)],
            None => seq![Datum::UInt64(self.number)],
        }
    }

    /// Encoding fails only where the buffer is shorter than the encoding.
    open spec fn refusal(&self, buffer: Seq<u8>) -> Option<Error> {
        if buffer.len() < self.encoding().len() {
            Some(Error::BufferTooSmall)
        } else {
            None
        }
    }

    /// The number is read, the digest is taken of what was folded up to
    /// there, and what is left of the input is passed.
    open spec fn decoded(before: Cursor, hash: spec_fn(Seq<u8>) -> Seq<u8>) -> (
        Result<Seq<Datum>, Error>,
        Cursor,
    ) {
        match read_uint64(before.remaining(), before.last_tag, NUMBER) {
            Err(e) => (Err(e), before),
            Ok((number, end)) => {
                let folded = before.transcript + before.remaining().take(end as int);
                let rest = before.remaining().skip(end as int);
                match skip_rest(rest, Some(NUMBER)) {
                    Err(e) => (Err(e), before),
                    Ok(()) => (
                        Ok(seq![Datum::UInt64(number), Datum::Bytes(hash(folded))]),
                        Cursor {
                            input: before.input,
                            position: before.input.len(),
                            last_tag: last_passed(rest, Some(NUMBER)),
                            transcript: folded + rest,
                            digest: Some(hash(folded)),
                        },
                    ),
                }
            },
        }
    }

    fn decode<A: Accumulator>(decoder: &mut Decoder<'_, A>) -> (r: Result<Self, Error>) {
        let number = match decoder.decode_uint64(NUMBER) {
            Err(e) => {
                return Err(e);
            },
            Ok(number) => number,
        };
        let ghost before = old(decoder).state();
        let ghost end = read_uint64(before.remaining(), before.last_tag, NUMBER)->Ok_0.1;
        let ghost folded = before.transcript + before.remaining().take(end as int);
        let ghost rest = before.remaining().skip(end as int);
        proof {
            assert(decoder.remaining() =~= rest);
            assert(decoder.transcript() == folded);
        }
        let digest = decoder.fill_digest();
        proof {
            assert(digest@ == hash_of_type::<A>()(folded));
        }
        match decoder.finish() {
            Err(e) => Err(e),
            Ok(()) => {
                let entry = Entry { number, digest: Some(digest) };
                proof {
                    assert(entry.holds() =~= seq![
                        Datum::UInt64(number),
                        Datum::Bytes(hash_of_type::<A>()(folded)),
                    ]);
                }
                Ok(entry)
            },
        }
    }

    fn encode<'a>(&self, buffer: &'a mut [u8]) -> (r: Result<&'a [u8], Error>) {
        let mut encoder = Encoder::new(buffer);
        proof {
            assert(encoder.written() =~= Seq::<u8>::empty());
        }
        match encoder.uint64(NUMBER, false, self.number) {
            Err(e) => Err(e),
            Ok(()) => {
                proof {
                    assert(Seq::<u8>::empty() + self.encoding() =~= self.encoding());
                }
                Ok(encoder.finish())
            },
        }
    }

    fn encoded_len(&self) -> (len: usize) {
        length::uint64(NUMBER, self.number)
    }
}

} // verus!
