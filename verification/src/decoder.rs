//! The decoder: a cursor over the input that hands out one requested field
//! after the other and folds what it passes into a running digest.

use vstd::prelude::*;
use vstd::slice::slice_subrange;
use vstd::string::StringSliceAdditionalSpecFns;
use vstd::utf8::{decode_utf8, valid_utf8};
use crate::digest::Accumulator;
use crate::error::Error;
use crate::field::{SizeBounds, WireType};
use crate::header::{parse_header, Header, CODE_SINT64, CODE_TRUE};
use crate::message::Element;
use crate::vint64;
use crate::wire::{
    heading, last_passed, lemma_last_passed_step, lemma_locate_ends, lemma_locate_passes,
    lemma_skip_rest_step, lemma_take_more,
    locate, parse_delimiter, passed, read_bool, read_body, read_bytes, read_message,
    read_field, read_sequence, read_sint64, read_string, read_uint64, shifted, skip_rest,
    value_extent,
};
use crate::sequence::{split, views};
use crate::zigzag;

verus! {

broadcast use vstd::slice::group_slice_axioms;

/// `core::str::from_utf8`: the string that `bytes` are the UTF-8 encoding
/// of, or nothing where they are not valid UTF-8.
#[verifier::external_body]
fn utf8_text<'a>(bytes: &'a [u8]) -> (text: Option<&'a str>)
    ensures
        text is Some <==> valid_utf8(bytes@),
        text matches Some(s) ==> s.spec_bytes() == bytes@,
{
    match core::str::from_utf8(bytes) {
        Ok(s) => Some(s),
        Err(_) => None,
    }
}

/// Number of bytes that the value of a field with wire-type code `code`
/// takes at the front of `input`.
pub fn extent(code: u8, input: &[u8]) -> (r: Result<usize, Error>)
    ensures
        match value_extent(code, input@) {
            Ok(n) => r == Ok::<usize, Error>(n as usize) && n <= input.len(),
            Err(e) => r == Err::<usize, Error>(e),
        },
{
    if code <= CODE_TRUE {
        Ok(0)
    } else if code <= CODE_SINT64 {
        match vint64::decode(input, Element::Value) {
            Err(e) => Err(e),
            Ok((_, taken)) => Ok(taken),
        }
    } else {
        match delimiter(input) {
            Err(e) => Err(e),
            Ok((taken, len)) => Ok(taken + len),
        }
    }
}

/// Reads a length and checks that as many bytes follow it: the number of
/// bytes that the length takes, and the length.
pub fn delimiter(input: &[u8]) -> (r: Result<(usize, usize), Error>)
    ensures
        match parse_delimiter(input@) {
            Ok((taken, len)) => r == Ok::<(usize, usize), Error>((taken as usize, len as usize))
                && 1 <= taken && taken + len <= input.len(),
            Err(e) => r == Err::<(usize, usize), Error>(e),
        },
{
    match vint64::decode(input, Element::LengthDelimiter) {
        Err(e) => Err(e),
        Ok((len, taken)) => {
            if ((input.len() - taken) as u64) < len {
                Err(Error::TruncatedInput { element: Element::Value })
            } else {
                Ok((taken, len as usize))
            }
        },
    }
}

/// The state of a decoder, as mathematics.
pub struct Cursor {
    /// The whole input.
    pub input: Seq<u8>,
    /// Number of bytes consumed.
    pub position: nat,
    /// Tag of the field passed last, if any was.
    pub last_tag: Option<u64>,
    /// Everything folded into the running digest so far.
    pub transcript: Seq<u8>,
    /// The digest that was filled in, if one was.
    pub digest: Option<Seq<u8>>,
}

impl Cursor {
    /// The state of a decoder at the start of `input`.
    pub open spec fn start(input: Seq<u8>) -> Cursor {
        Cursor { input, position: 0, last_tag: None, transcript: Seq::empty(), digest: None }
    }

    /// The input that is not consumed yet.
    pub open spec fn remaining(self) -> Seq<u8> {
        self.input.skip(self.position as int)
    }
}

/// A cursor over the encoding of one message.
pub struct Decoder<'a, A: Accumulator> {
    input: &'a [u8],
    position: usize,
    last_tag: Option<u64>,
    accumulator: A,
    digest: Option<Vec<u8>>,
}

impl<'a, A: Accumulator> Decoder<'a, A> {
    /// The whole input.
    pub closed spec fn input(&self) -> Seq<u8> {
        self.input@
    }

    /// Number of bytes consumed.
    pub closed spec fn position(&self) -> nat {
        self.position as nat
    }

    /// Tag of the field passed last, if any was.
    pub closed spec fn last_tag(&self) -> Option<u64> {
        self.last_tag
    }

    /// Everything folded into the running digest so far.
    pub closed spec fn transcript(&self) -> Seq<u8> {
        self.accumulator.absorbed()
    }

    /// The digest that was filled in, if one was.
    pub closed spec fn digest(&self) -> Option<Seq<u8>> {
        match self.digest {
            Some(d) => Some(d@),
            None => None,
        }
    }

    /// The cursor is within the input.
    pub open spec fn wf(&self) -> bool {
        self.position() <= self.input().len() <= usize::MAX
    }

    /// The input that is not consumed yet.
    pub open spec fn remaining(&self) -> Seq<u8> {
        self.input().skip(self.position() as int)
    }

    /// The state of this decoder.
    pub open spec fn state(&self) -> Cursor {
        Cursor {
            input: self.input(),
            position: self.position(),
            last_tag: self.last_tag(),
            transcript: self.transcript(),
            digest: self.digest(),
        }
    }

    /// This decoder is `before` after it passed `upto` more bytes, the last
    /// of them a field with tag `tag`, and folded `folded` into the digest.
    pub open spec fn advanced(&self, before: Self, upto: nat, tag: u64, folded: Seq<u8>) -> bool {
        &&& self.wf()
        &&& self.input() == before.input()
        &&& self.position() == before.position() + upto
        &&& self.position() <= self.input().len()
        &&& self.last_tag() == Some(tag)
        &&& self.transcript() == before.transcript() + folded
        &&& self.digest() == before.digest()
    }

    /// This decoder is `before` after it passed `upto` more bytes, folded
    /// `folded` into the digest, and has `last` as the tag passed last.
    pub open spec fn moved(
        &self,
        before: Self,
        upto: nat,
        last: Option<u64>,
        folded: Seq<u8>,
    ) -> bool {
        &&& self.wf()
        &&& self.input() == before.input()
        &&& self.position() == before.position() + upto
        &&& self.position() <= self.input().len()
        &&& self.last_tag() == last
        &&& self.transcript() == before.transcript() + folded
        &&& self.digest() == before.digest()
    }

    /// This decoder is `before` after it consumed `upto` more bytes, the last
    /// of them a field with tag `tag`, and folded all of them into the digest.
    pub open spec fn consumed(&self, before: Self, upto: nat, tag: u64) -> bool {
        self.advanced(before, upto, tag, before.remaining().take(upto as int))
    }

    /// The digest that stands for the message in a sequence: the one filled
    /// in, or else the digest of everything folded so far.
    pub open spec fn own_digest(&self) -> Seq<u8> {
        match self.digest() {
            Some(d) => d,
            None => A::hash(self.transcript()),
        }
    }

    /// A decoder at the start of `input`, with a fresh digest.
    pub fn new(input: &'a [u8]) -> (decoder: Self)
        ensures
            decoder.wf(),
            decoder.input() == input@,
            decoder.position() == 0,
            decoder.last_tag() == None::<u64>,
            decoder.transcript() == Seq::<u8>::empty(),
            decoder.digest() == None::<Seq<u8>>,
    {
        let total: usize = input.len();
        Decoder { input, position: 0, last_tag: None, accumulator: A::new(), digest: None }
    }

    /// A decoder at the start of `input` that goes on with `accumulator`:
    /// what that has absorbed already counts in the digest before
    /// everything that is decoded.
    pub fn with_accumulator(input: &'a [u8], accumulator: A) -> (decoder: Self)
        ensures
            decoder.wf(),
            decoder.input() == input@,
            decoder.position() == 0,
            decoder.last_tag() == None::<u64>,
            decoder.transcript() == accumulator.absorbed(),
            decoder.digest() == None::<Seq<u8>>,
    {
        let total: usize = input.len();
        Decoder { input, position: 0, last_tag: None, accumulator, digest: None }
    }

    /// The tag of the next field, which stays where it is.
    pub fn peek_tag(&self) -> (r: Result<u64, Error>)
        requires
            self.wf(),
        ensures
            r == (match parse_header(self.remaining()) {
                Ok((header, _)) => Ok::<u64, Error>(header.tag),
                Err(e) => Err::<u64, Error>(e),
            }),
    {
        let rest = slice_subrange(self.input, self.position, self.input.len());
        match Header::decode(rest) {
            Err(e) => Err(e),
            Ok((header, _)) => Ok(header.tag),
        }
    }

    /// Ok where all of the input is consumed.
    pub fn check_input_consumed(&self) -> (r: Result<(), Error>)
        requires
            self.wf(),
        ensures
            r == (if self.position() == self.input().len() {
                Ok::<(), Error>(())
            } else {
                Err::<(), Error>(Error::TrailingData)
            }),
    {
        if self.position == self.input.len() {
            Ok(())
        } else {
            Err(Error::TrailingData)
        }
    }

    /// The next header, whose tag has to be above the last one. The cursor
    /// stays where it is.
    fn heading(&self) -> (r: Result<(Header, usize), Error>)
        requires
            self.wf(),
        ensures
            match heading(self.remaining(), self.last_tag()) {
                Ok((header, header_len)) => {
                    &&& r == Ok::<(Header, usize), Error>((header, header_len as usize))
                    &&& 2 <= header_len <= 10
                    &&& header_len <= self.remaining().len()
                    &&& header.code < 8
                },
                Err(e) => r == Err::<(Header, usize), Error>(e),
            },
    {
        let rest = slice_subrange(self.input, self.position, self.input.len());
        proof {
            if parse_header(rest@) is Ok {
                crate::header::lemma_bytes_of_parse_header(rest@);
                crate::header::lemma_header_len(parse_header(rest@)->Ok_0.0);
            }
        }
        match Header::decode(rest) {
            Err(e) => Err(e),
            Ok((header, header_len)) => {
                match self.last_tag {
                    Some(last) => {
                        if header.tag <= last {
                            return Err(Error::TagOutOfOrder);
                        }
                    },
                    None => {},
                }
                Ok((header, header_len))
            },
        }
    }

    /// Number of bytes that the value takes which starts `header_len` bytes
    /// after the cursor and belongs to a header with wire-type code `code`.
    fn value_len(&self, code: u8, header_len: usize) -> (r: Result<usize, Error>)
        requires
            self.wf(),
            header_len <= self.remaining().len(),
        ensures
            match value_extent(code, self.remaining().skip(header_len as int)) {
                Ok(len) => r == Ok::<usize, Error>(len as usize) && header_len + len
                    <= self.remaining().len(),
                Err(e) => r == Err::<usize, Error>(e),
            },
    {
        let total: usize = self.input.len();
        let after = slice_subrange(self.input, self.position + header_len, total);
        proof {
            assert(after@ =~= self.remaining().skip(header_len as int));
        }
        extent(code, after)
    }

    /// Moves the cursor `count` bytes on, folding them into the digest, and
    /// notes `tag` as the last tag.
    fn pass(&mut self, count: usize, tag: u64)
        requires
            old(self).wf(),
            count <= old(self).remaining().len(),
        ensures
            final(self).consumed(*old(self), count as nat, tag),
            final(self).remaining() == old(self).remaining().skip(count as int),
    {
        let total: usize = self.input.len();
        let bytes = slice_subrange(self.input, self.position, self.position + count);
        self.accumulator.absorb(bytes);
        self.position = self.position + count;
        self.last_tag = Some(tag);
        proof {
            assert(bytes@ =~= old(self).remaining().take(count as int));
            assert(self.remaining() =~= old(self).remaining().skip(count as int));
        }
    }

    /// Goes forward to the value of the field with tag `tag`. What lies
    /// before the value is folded into the digest. Gives the field's header.
    #[verifier::rlimit(50)]
    fn find(&mut self, tag: u64) -> (r: Result<Header, Error>)
        requires
            old(self).wf(),
        ensures
            final(self).wf(),
            final(self).input() == old(self).input(),
            match locate(old(self).remaining(), old(self).last_tag(), tag) {
                Ok(at) => {
                    &&& r == Ok::<Header, Error>(at.header)
                    &&& at.header.code < 8
                    &&& at.header.tag == tag
                    &&& final(self).consumed(*old(self), at.start, tag)
                    &&& final(self).remaining() == old(self).remaining().skip(at.start as int)
                },
                Err(e) => r == Err::<Header, Error>(e),
            },
    {
        let ghost all = self.remaining();
        let ghost first = self.last_tag();
        let ghost mut gone: nat = 0;
        proof {
            assert(all.skip(0) =~= all);
            assert(all.take(0) =~= Seq::<u8>::empty());
            assert(old(self).transcript() + Seq::<u8>::empty() =~= old(self).transcript());
        }
        loop
            invariant
                self.wf(),
                self.input() == old(self).input(),
                self.digest() == old(self).digest(),
                all == old(self).remaining(),
                first == old(self).last_tag(),
                gone <= all.len(),
                self.position() == old(self).position() + gone,
                self.remaining() == all.skip(gone as int),
                self.transcript() == old(self).transcript() + all.take(gone as int),
                locate(all, first, tag) == shifted(
                    locate(all.skip(gone as int), self.last_tag(), tag),
                    gone,
                ),
            decreases all.len() - gone,
        {
            proof {
                lemma_locate_ends(all, first, tag, gone, self.last_tag());
            }
            let ghost last = self.last_tag();
            let ghost so_far = self.transcript();
            let (header, header_len) = match self.heading() {
                Err(e) => {
                    return Err(e);
                },
                Ok(found) => found,
            };
            if header.tag == tag {
                let ghost at_header = self.position();
                self.pass(header_len, tag);
                proof {
                    assert(self.position() == at_header + header_len);
                    assert(self.transcript() == old(self).transcript() + (all.take(gone as int)
                        + all.skip(gone as int).take(header_len as int))) by {
                        assert(so_far + all.skip(gone as int).take(header_len as int) =~= old(
                            self,
                        ).transcript() + (all.take(gone as int) + all.skip(gone as int).take(
                            header_len as int,
                        )));
                    }
                }
                return Ok(header);
            }
            if header.critical {
                return Err(Error::UnknownCriticalField);
            }
            let len: usize = match self.value_len(header.code, header_len) {
                Err(e) => {
                    return Err(e);
                },
                Ok(len) => len,
            };
            let skipped: usize = header_len + len;
            self.pass(skipped, header.tag);
            proof {
                lemma_locate_passes(all, first, tag, gone, last);
                assert(self.transcript() == old(self).transcript() + (all.take(gone as int)
                    + all.skip(gone as int).take(skipped as int))) by {
                    assert(so_far + all.skip(gone as int).take(skipped as int) =~= old(
                        self,
                    ).transcript() + (all.take(gone as int) + all.skip(gone as int).take(
                        skipped as int,
                    )));
                }
                gone = (gone + skipped) as nat;
            }
        }
    }

    /// Goes forward to the value of the field with tag `tag`, which has to
    /// be of wire type `wire_type` and complete. What lies before the value
    /// is folded into the digest. Gives the field's header and the length
    /// of its value.
    #[verifier::rlimit(50)]
    fn seek(&mut self, tag: u64, wire_type: WireType) -> (r: Result<(Header, usize), Error>)
        requires
            old(self).wf(),
        ensures
            final(self).wf(),
            final(self).input() == old(self).input(),
            match read_field(old(self).remaining(), old(self).last_tag(), tag, wire_type) {
                Ok(span) => {
                    &&& r == Ok::<(Header, usize), Error>(
                        (span.header, (span.end - span.start) as usize),
                    )
                    &&& span.start <= span.end
                    &&& old(self).position() + span.end <= old(self).input().len()
                    &&& span.header.wire_type() == wire_type
                    &&& span.header.tag == tag
                    &&& final(self).consumed(*old(self), span.start, tag)
                    &&& final(self).remaining() == old(self).remaining().skip(span.start as int)
                },
                Err(e) => r == Err::<(Header, usize), Error>(e),
            },
    {
        let header = match self.find(tag) {
            Err(e) => {
                return Err(e);
            },
            Ok(header) => header,
        };
        if header.kind() != wire_type {
            return Err(Error::UnexpectedWireType);
        }
        proof {
            assert(self.remaining().skip(0) =~= self.remaining());
        }
        match self.value_len(header.code, 0) {
            Err(e) => Err(e),
            Ok(len) => Ok((header, len)),
        }
    }

    /// The boolean field with tag `tag`.
    pub fn decode_bool(&mut self, tag: u64) -> (r: Result<bool, Error>)
        requires
            old(self).wf(),
        ensures
            final(self).wf(),
            final(self).input() == old(self).input(),
            match read_bool(old(self).remaining(), old(self).last_tag(), tag) {
                Ok((value, end)) => r == Ok::<bool, Error>(value) && final(self).consumed(
                    *old(self),
                    end,
                    tag,
                ),
                Err(e) => r == Err::<bool, Error>(e),
            },
    {
        match self.seek(tag, WireType::Bool) {
            Err(e) => Err(e),
            Ok((header, _)) => Ok(header.code == CODE_TRUE),
        }
    }

    /// The unsigned integer field with tag `tag`.
    pub fn decode_uint64(&mut self, tag: u64) -> (r: Result<u64, Error>)
        requires
            old(self).wf(),
        ensures
            final(self).wf(),
            final(self).input() == old(self).input(),
            match read_uint64(old(self).remaining(), old(self).last_tag(), tag) {
                Ok((value, end)) => r == Ok::<u64, Error>(value) && final(self).consumed(
                    *old(self),
                    end,
                    tag,
                ),
                Err(e) => r == Err::<u64, Error>(e),
            },
    {
        let ghost all = self.remaining();
        match self.seek(tag, WireType::UInt64) {
            Err(e) => Err(e),
            Ok((_, len)) => {
                let ghost start = (self.position() - old(self).position()) as nat;
                let rest = slice_subrange(self.input, self.position, self.input.len());
                match vint64::decode(rest, Element::Value) {
                    Err(e) => Err(e),
                    Ok((value, _)) => {
                        self.pass(len, tag);
                        proof {
                            lemma_take_more(old(self).transcript(), all, start, len as nat);
                        }
                        Ok(value)
                    },
                }
            },
        }
    }

    /// The signed integer field with tag `tag`.
    pub fn decode_sint64(&mut self, tag: u64) -> (r: Result<i64, Error>)
        requires
            old(self).wf(),
        ensures
            final(self).wf(),
            final(self).input() == old(self).input(),
            match read_sint64(old(self).remaining(), old(self).last_tag(), tag) {
                Ok((value, end)) => r == Ok::<i64, Error>(value) && final(self).consumed(
                    *old(self),
                    end,
                    tag,
                ),
                Err(e) => r == Err::<i64, Error>(e),
            },
    {
        let ghost all = self.remaining();
        match self.seek(tag, WireType::SInt64) {
            Err(e) => Err(e),
            Ok((_, len)) => {
                let ghost start = (self.position() - old(self).position()) as nat;
                let rest = slice_subrange(self.input, self.position, self.input.len());
                match vint64::decode(rest, Element::Value) {
                    Err(e) => Err(e),
                    Ok((code, _)) => {
                        self.pass(len, tag);
                        proof {
                            lemma_take_more(old(self).transcript(), all, start, len as nat);
                        }
                        Ok(zigzag::decode(code))
                    },
                }
            },
        }
    }

    /// Goes forward to the value of the length-delimited field with tag
    /// `tag` and wire type `wire_type`, and stops before it. Gives the value
    /// without its length, and the length of the value with it.
    #[verifier::rlimit(50)]
    fn body(&mut self, tag: u64, wire_type: WireType) -> (r: Result<(&'a [u8], usize), Error>)
        requires
            old(self).wf(),
            wire_type == WireType::Bytes || wire_type == WireType::String || wire_type
                == WireType::Message || wire_type == WireType::Sequence,
        ensures
            final(self).wf(),
            final(self).input() == old(self).input(),
            match read_body(old(self).remaining(), old(self).last_tag(), tag, wire_type) {
                Ok(body) => {
                    &&& r matches Ok((bytes, len))
                    &&& bytes@ == body.bytes
                    &&& len == body.end - body.start
                    &&& body.start <= body.end
                    &&& old(self).position() + body.end <= old(self).input().len()
                    &&& final(self).consumed(*old(self), body.start, tag)
                    &&& final(self).remaining() == old(self).remaining().skip(body.start as int)
                },
                Err(e) => r == Err::<(&'a [u8], usize), Error>(e),
            },
    {
        match self.seek(tag, wire_type) {
            Err(e) => Err(e),
            Ok((_, len)) => {
                let input: &'a [u8] = self.input;
                let rest = slice_subrange(input, self.position, input.len());
                match delimiter(rest) {
                    Err(e) => Err(e),
                    Ok((taken, _)) => {
                        let bytes = slice_subrange(rest, taken, len);
                        proof {
                            let start = (self.position() - old(self).position()) as int;
                            assert(bytes@ =~= old(self).remaining().subrange(
                                start + taken,
                                start + len,
                            ));
                        }
                        Ok((bytes, len))
                    },
                }
            },
        }
    }

    /// The field of binary data with tag `tag`, whose length has to be
    /// within `bounds`. The value is a part of the input, not a copy.
    pub fn decode_bytes(&mut self, tag: u64, bounds: &SizeBounds) -> (r: Result<&'a [u8], Error>)
        requires
            old(self).wf(),
        ensures
            final(self).wf(),
            final(self).input() == old(self).input(),
            match read_bytes(old(self).remaining(), old(self).last_tag(), tag, *bounds) {
                Ok(body) => {
                    &&& r matches Ok(bytes)
                    &&& bytes@ == body.bytes
                    &&& final(self).consumed(*old(self), body.end, tag)
                },
                Err(e) => r == Err::<&'a [u8], Error>(e),
            },
    {
        let ghost all = self.remaining();
        match self.body(tag, WireType::Bytes) {
            Err(e) => Err(e),
            Ok((bytes, len)) => {
                if !bounds.allows(bytes.len()) {
                    return Err(Error::SizeOutOfBounds);
                }
                let ghost start = (self.position() - old(self).position()) as nat;
                self.pass(len, tag);
                proof {
                    lemma_take_more(old(self).transcript(), all, start, len as nat);
                }
                Ok(bytes)
            },
        }
    }

    /// The string field with tag `tag`, whose length in bytes has to be
    /// within `bounds`. The value is a part of the input, not a copy.
    pub fn decode_string(&mut self, tag: u64, bounds: &SizeBounds) -> (r: Result<&'a str, Error>)
        requires
            old(self).wf(),
        ensures
            final(self).wf(),
            final(self).input() == old(self).input(),
            match read_string(old(self).remaining(), old(self).last_tag(), tag, *bounds) {
                Ok(body) => {
                    &&& r matches Ok(text)
                    &&& text.spec_bytes() == body.bytes
                    &&& text@ == decode_utf8(body.bytes)
                    &&& final(self).consumed(*old(self), body.end, tag)
                },
                Err(e) => r == Err::<&'a str, Error>(e),
            },
    {
        let ghost all = self.remaining();
        match self.body(tag, WireType::String) {
            Err(e) => Err(e),
            Ok((bytes, len)) => {
                if !bounds.allows(bytes.len()) {
                    return Err(Error::SizeOutOfBounds);
                }
                match utf8_text(bytes) {
                    None => Err(Error::InvalidEncoding { element: Element::Value }),
                    Some(text) => {
                        let ghost start = (self.position() - old(self).position()) as nat;
                        self.pass(len, tag);
                        proof {
                            lemma_take_more(old(self).transcript(), all, start, len as nat);
                            vstd::utf8::encode_utf8_decode_utf8(text@);
                        }
                        Ok(text)
                    },
                }
            },
        }
    }

    /// The encoding of the nested message in the field with tag `tag`,
    /// whose length has to be within `bounds`. It is a part of the input,
    /// not a copy.
    pub fn decode_message(&mut self, tag: u64, bounds: &SizeBounds) -> (r: Result<&'a [u8], Error>)
        requires
            old(self).wf(),
        ensures
            final(self).wf(),
            final(self).input() == old(self).input(),
            match read_message(old(self).remaining(), old(self).last_tag(), tag, *bounds) {
                Ok(body) => {
                    &&& r matches Ok(bytes)
                    &&& bytes@ == body.bytes
                    &&& final(self).consumed(*old(self), body.end, tag)
                },
                Err(e) => r == Err::<&'a [u8], Error>(e),
            },
    {
        let ghost all = self.remaining();
        match self.body(tag, WireType::Message) {
            Err(e) => Err(e),
            Ok((bytes, len)) => {
                if !bounds.allows(bytes.len()) {
                    return Err(Error::SizeOutOfBounds);
                }
                let ghost start = (self.position() - old(self).position()) as nat;
                self.pass(len, tag);
                proof {
                    lemma_take_more(old(self).transcript(), all, start, len as nat);
                }
                Ok(bytes)
            },
        }
    }

    /// The encodings of the messages in the sequence field with tag `tag`.
    /// They are parts of the input, not copies. The length of what the
    /// field holds behind its length has to be within `bounds`.
    ///
    /// Of the field only what lies before its value is folded into the
    /// digest. The value counts by the digests of its elements, which the
    /// caller folds in one by one, in order, with `fold_digest`.
    pub fn decode_sequence(&mut self, tag: u64, bounds: &SizeBounds) -> (r: Result<
        Vec<&'a [u8]>,
        Error,
    >)
        requires
            old(self).wf(),
        ensures
            final(self).wf(),
            final(self).input() == old(self).input(),
            match read_sequence(old(self).remaining(), old(self).last_tag(), tag, *bounds) {
                Ok((body, elements)) => {
                    &&& r matches Ok(found)
                    &&& views(found@) == elements
                    &&& final(self).advanced(
                        *old(self),
                        body.end,
                        tag,
                        old(self).remaining().take(body.start as int),
                    )
                },
                Err(e) => r == Err::<Vec<&'a [u8]>, Error>(e),
            },
    {
        match self.body(tag, WireType::Sequence) {
            Err(e) => Err(e),
            Ok((bytes, len)) => {
                if !bounds.allows(bytes.len()) {
                    return Err(Error::SizeOutOfBounds);
                }
                match split(bytes) {
                    Err(e) => Err(e),
                    Ok(found) => {
                        self.position = self.position + len;
                        Ok(found)
                    },
                }
            },
        }
    }

    /// Folds the digest of an element of a sequence into the running digest.
    pub fn fold_digest(&mut self, digest: &[u8])
        requires
            old(self).wf(),
        ensures
            final(self).wf(),
            final(self).input() == old(self).input(),
            final(self).position() == old(self).position(),
            final(self).last_tag() == old(self).last_tag(),
            final(self).digest() == old(self).digest(),
            final(self).transcript() == old(self).transcript() + digest@,
    {
        self.accumulator.absorb(digest);
    }

    /// The digest of everything folded so far: of the fields passed up to
    /// here, those skipped among them. The decoder keeps it as the digest
    /// that was filled in, and goes on from where it is.
    pub fn fill_digest(&mut self) -> (digest: Vec<u8>)
        requires
            old(self).wf(),
        ensures
            digest@ == A::hash(old(self).transcript()),
            final(self).wf(),
            final(self).input() == old(self).input(),
            final(self).position() == old(self).position(),
            final(self).last_tag() == old(self).last_tag(),
            final(self).transcript() == old(self).transcript(),
            final(self).digest() == Some(digest@),
    {
        let digest = self.accumulator.finalize();
        let kept = digest.clone();
        proof {
            assert(kept@ =~= digest@);
        }
        self.digest = Some(kept);
        digest
    }

    /// The digest that stands for this message where it is an element of a
    /// sequence: the one that was filled in, or else the digest of
    /// everything folded so far.
    pub fn element_digest(&self) -> (digest: Vec<u8>)
        requires
            self.wf(),
        ensures
            digest@ == self.own_digest(),
    {
        match &self.digest {
            Some(filled) => {
                let digest = filled.clone();
                proof {
                    assert(digest@ =~= filled@);
                }
                digest
            },
            None => self.accumulator.finalize(),
        }
    }

    /// Passes what is left of the input, in which no field is asked for:
    /// the tags must go on ascending and no field may be critical. All of
    /// it is folded into the digest.
    #[verifier::rlimit(50)]
    pub fn finish(&mut self) -> (r: Result<(), Error>)
        requires
            old(self).wf(),
        ensures
            final(self).wf(),
            final(self).input() == old(self).input(),
            match skip_rest(old(self).remaining(), old(self).last_tag()) {
                Ok(()) => {
                    &&& r == Ok::<(), Error>(())
                    &&& final(self).position() == old(self).input().len()
                    &&& final(self).last_tag() == last_passed(
                        old(self).remaining(),
                        old(self).last_tag(),
                    )
                    &&& final(self).transcript() == old(self).transcript() + old(self).remaining()
                    &&& final(self).digest() == old(self).digest()
                },
                Err(e) => r == Err::<(), Error>(e),
            },
    {
        let ghost all = self.remaining();
        let ghost first = self.last_tag();
        let ghost mut gone: nat = 0;
        proof {
            assert(all.skip(0) =~= all);
            assert(all.take(0) =~= Seq::<u8>::empty());
            assert(old(self).transcript() + Seq::<u8>::empty() =~= old(self).transcript());
        }
        loop
            invariant
                self.wf(),
                self.input() == old(self).input(),
                self.digest() == old(self).digest(),
                all == old(self).remaining(),
                first == old(self).last_tag(),
                gone <= all.len(),
                self.position() == old(self).position() + gone,
                self.remaining() == all.skip(gone as int),
                self.transcript() == old(self).transcript() + all.take(gone as int),
                skip_rest(all, first) == skip_rest(all.skip(gone as int), self.last_tag()),
                last_passed(all, first) == last_passed(all.skip(gone as int), self.last_tag()),
            decreases all.len() - gone,
        {
            let ghost last = self.last_tag();
            proof {
                lemma_skip_rest_step(all, first, gone, self.last_tag());
            }
            if self.position == self.input.len() {
                proof {
                    assert(all.take(gone as int) =~= all);
                }
                return Ok(());
            }
            let ghost so_far = self.transcript();
            let (header, header_len) = match self.heading() {
                Err(e) => {
                    return Err(e);
                },
                Ok(found) => found,
            };
            if header.critical {
                return Err(Error::UnknownCriticalField);
            }
            let len: usize = match self.value_len(header.code, header_len) {
                Err(e) => {
                    return Err(e);
                },
                Ok(len) => len,
            };
            let skipped: usize = header_len + len;
            self.pass(skipped, header.tag);
            proof {
                lemma_last_passed_step(all, first, gone, last);
                assert(self.transcript() == old(self).transcript() + (all.take(gone as int)
                    + all.skip(gone as int).take(skipped as int))) by {
                    assert(so_far + all.skip(gone as int).take(skipped as int) =~= old(
                        self,
                    ).transcript() + (all.take(gone as int) + all.skip(gone as int).take(
                        skipped as int,
                    )));
                }
                gone = (gone + skipped) as nat;
            }
        }
    }
}

} // verus!
