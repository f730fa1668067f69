//! The encoder: appends fields, in ascending tag order, to a buffer that the
//! caller owns.

use vstd::prelude::*;
use vstd::slice::slice_subrange;
use crate::error::Error;
use crate::header::{
    header_bytes, lemma_header_len, Header, CODE_BYTES, CODE_FALSE, CODE_MESSAGE, CODE_SEQUENCE,
    CODE_SINT64, CODE_STRING, CODE_TRUE, CODE_UINT64,
};
use crate::vint64;
use crate::vint64::{lemma_vint_len, vint, vint_len};
use crate::sequence::{bodies, body_len, lemma_elements_bytes_grows, lemma_elements_bytes_push};
use crate::wire::{
    bool_field, bytes_field, delimited, elements_bytes, field, message_field, sequence_body,
    sequence_field, sint64_field, string_field, uint64_field,
};
use crate::zigzag;

verus! {

broadcast use vstd::slice::group_slice_axioms;

/// A cursor over an output buffer.
pub struct Encoder<'a> {
    buffer: &'a mut [u8],
    position: usize,
    last_tag: Option<u64>,
}

impl<'a> Encoder<'a> {
    /// The whole buffer.
    pub closed spec fn buffer(&self) -> Seq<u8> {
        self.buffer@
    }

    /// Number of bytes written.
    pub closed spec fn position(&self) -> nat {
        self.position as nat
    }

    /// Tag of the field written last, if any was.
    pub closed spec fn last_tag(&self) -> Option<u64> {
        self.last_tag
    }

    /// The cursor is within the buffer.
    pub open spec fn wf(&self) -> bool {
        self.position() <= self.buffer().len() <= usize::MAX
    }

    /// Size of the buffer.
    pub open spec fn capacity(&self) -> nat {
        self.buffer().len()
    }

    /// The bytes written so far.
    pub open spec fn written(&self) -> Seq<u8> {
        self.buffer().take(self.position() as int)
    }

    /// Why a field of `len` bytes with tag `tag` cannot be appended, if it
    /// cannot: its tag is not above the last one, or it does not fit.
    pub open spec fn refusal(&self, tag: u64, len: nat) -> Option<Error> {
        if self.last_tag() is Some && tag <= self.last_tag()->Some_0 {
            Some(Error::TagOutOfOrder)
        } else if self.position() + len > self.capacity() {
            Some(Error::BufferTooSmall)
        } else {
            None
        }
    }

    /// This encoder is `before` with `bytes` written behind what was there.
    pub open spec fn extended(&self, before: Self, bytes: Seq<u8>) -> bool {
        &&& self.wf()
        &&& self.capacity() == before.capacity()
        &&& self.position() == before.position() + bytes.len()
        &&& self.written() == before.written() + bytes
    }

    /// This encoder is `before` with the field `bytes`, whose tag is `tag`,
    /// appended.
    pub open spec fn appended(&self, before: Self, tag: u64, bytes: Seq<u8>) -> bool {
        &&& self.extended(before, bytes)
        &&& self.last_tag() == Some(tag)
    }

    /// This encoder is as `before`: nothing was written.
    pub open spec fn unchanged(&self, before: Self) -> bool {
        &&& self.extended(before, Seq::empty())
        &&& self.last_tag() == before.last_tag()
    }

    /// What an attempt to append the field `bytes` with tag `tag` to
    /// `before` has to give: the field appended, or the refusal and nothing
    /// written.
    pub open spec fn appends(
        &self,
        before: Self,
        tag: u64,
        bytes: Seq<u8>,
        r: Result<(), Error>,
    ) -> bool {
        match before.refusal(tag, bytes.len()) {
            Some(e) => r == Err::<(), Error>(e) && self.unchanged(before),
            None => r == Ok::<(), Error>(()) && self.appended(before, tag, bytes),
        }
    }

    /// An encoder at the start of `buffer`.
    pub fn new(buffer: &'a mut [u8]) -> (encoder: Self)
        ensures
            encoder.wf(),
            encoder.buffer() == old(buffer)@,
            encoder.position() == 0,
            encoder.last_tag() == None::<u64>,
    {
        let total: usize = buffer.len();
        Encoder { buffer, position: 0, last_tag: None }
    }

    /// Writes the header of a field whose value takes `payload_len` bytes,
    /// where the whole field fits and its tag is above the last one.
    fn put_header(&mut self, tag: u64, critical: bool, code: u8, payload_len: usize) -> (r: Result<
        (),
        Error,
    >)
        requires
            old(self).wf(),
            code < 8,
        ensures
            match old(self).refusal(tag, (vint_len(tag) + 1 + payload_len) as nat) {
                Some(e) => r == Err::<(), Error>(e) && final(self).unchanged(*old(self)),
                None => {
                    &&& r == Ok::<(), Error>(())
                    &&& final(self).appended(
                        *old(self),
                        tag,
                        header_bytes(Header { tag, code, critical }),
                    )
                    &&& final(self).position() + payload_len <= final(self).capacity()
                },
            },
    {
        proof {
            assert(self.written() + Seq::<u8>::empty() =~= self.written());
        }
        match self.last_tag {
            Some(last) => {
                if tag <= last {
                    return Err(Error::TagOutOfOrder);
                }
            },
            None => {},
        }
        let header_len: usize = Header::encoded_len(tag);
        let room: usize = self.buffer.len() - self.position;
        if payload_len > room || room - payload_len < header_len {
            return Err(Error::BufferTooSmall);
        }
        let header = Header { tag, code, critical };
        let ghost before = self.buffer@;
        match header.encode(self.buffer, self.position) {
            Err(e) => Err(e),
            Ok(_) => {
                proof {
                    lemma_header_len(header);
                    assert(self.buffer@.take(self.position + header_len) =~= before.take(
                        self.position as int,
                    ) + header_bytes(header));
                }
                self.position = self.position + header_len;
                self.last_tag = Some(tag);
                Ok(())
            },
        }
    }

    /// Writes the encoding of `value`, which fits.
    fn put_vint(&mut self, value: u64)
        requires
            old(self).wf(),
            old(self).position() + vint_len(value) <= old(self).capacity(),
        ensures
            final(self).extended(*old(self), vint(value)),
            final(self).last_tag() == old(self).last_tag(),
    {
        let ghost before = self.buffer@;
        match vint64::encode(value, self.buffer, self.position) {
            Err(_) => {},
            Ok(len) => {
                proof {
                    lemma_vint_len(value);
                    assert(self.buffer@.take(self.position + len) =~= before.take(
                        self.position as int,
                    ) + vint(value));
                }
                self.position = self.position + len;
            },
        }
    }

    /// Writes `bytes`, which fit.
    #[verifier::rlimit(50)]
    fn put_bytes(&mut self, bytes: &[u8])
        requires
            old(self).wf(),
            old(self).position() + bytes@.len() <= old(self).capacity(),
        ensures
            final(self).extended(*old(self), bytes@),
            final(self).last_tag() == old(self).last_tag(),
    {
        let count: usize = bytes.len();
        let start: usize = self.position;
        let ghost before = self.buffer@;
        let mut i: usize = 0;
        while i < count
            invariant
                i <= count,
                count == bytes@.len(),
                start == self.position,
                self.last_tag == old(self).last_tag,
                start + count <= before.len() <= usize::MAX,
                self.buffer@.len() == before.len(),
                self.buffer.len() == before.len(),
                self.buffer@.take(start as int) == before.take(start as int),
                self.buffer@.subrange(start as int, start + i) == bytes@.take(i as int),
            decreases count - i,
        {
            let ghost earlier = self.buffer@;
            self.buffer[start + i] = bytes[i];
            proof {
                assert(self.buffer@.take(start as int) =~= earlier.take(start as int));
                assert(self.buffer@.subrange(start as int, start + i + 1) =~= earlier.subrange(
                    start as int,
                    start + i,
                ).push(bytes@[i as int]));
                assert(bytes@.take(i + 1) =~= bytes@.take(i as int).push(bytes@[i as int]));
            }
            i = i + 1;
        }
        proof {
            assert(bytes@.take(count as int) =~= bytes@);
            assert(self.buffer@.take(start + count) =~= self.buffer@.take(start as int)
                + self.buffer@.subrange(start as int, start + count));
        }
        self.position = start + count;
    }

    /// Writes `byte`, which fits.
    fn put_byte(&mut self, byte: u8)
        requires
            old(self).wf(),
            old(self).position() + 1 <= old(self).capacity(),
        ensures
            final(self).extended(*old(self), seq![byte]),
            final(self).last_tag() == old(self).last_tag(),
    {
        let ghost before = self.buffer@;
        self.buffer[self.position] = byte;
        proof {
            assert(self.buffer@.take(self.position + 1) =~= before.take(self.position as int)
                + seq![byte]);
        }
        self.position = self.position + 1;
    }

    /// Appends a field whose value is `body` behind its length.
    #[verifier::rlimit(50)]
    fn put_delimited(&mut self, tag: u64, critical: bool, code: u8, body: &[u8]) -> (r: Result<
        (),
        Error,
    >)
        requires
            old(self).wf(),
            code < 8,
        ensures
            final(self).appends(*old(self), tag, field(tag, critical, code, delimited(body@)), r),
    {
        let count: usize = body.len();
        let room: usize = self.buffer.len() - self.position;
        let ghost whole = field(tag, critical, code, delimited(body@));
        proof {
            lemma_field_len(tag, critical, code, delimited(body@));
            lemma_delimited_len(body@);
            assert(self.written() + Seq::<u8>::empty() =~= self.written());
        }
        let delimiter_len: usize = vint64::encoded_len(count as u64);
        if count > room || room - count < delimiter_len {
            match self.last_tag {
                Some(last) => {
                    if tag <= last {
                        return Err(Error::TagOutOfOrder);
                    }
                },
                None => {},
            }
            return Err(Error::BufferTooSmall);
        }
        let payload_len: usize = delimiter_len + count;
        match self.put_header(tag, critical, code, payload_len) {
            Err(e) => Err(e),
            Ok(()) => {
                let ghost headed = self.written();
                self.put_vint(count as u64);
                self.put_bytes(body);
                proof {
                    assert(self.written() =~= old(self).written() + whole);
                }
                Ok(())
            },
        }
    }

    /// Appends a boolean field.
    pub fn bool(&mut self, tag: u64, critical: bool, value: bool) -> (r: Result<(), Error>)
        requires
            old(self).wf(),
        ensures
            final(self).appends(*old(self), tag, bool_field(tag, critical, value), r),
    {
        let code: u8 = if value {
            CODE_TRUE
        } else {
            CODE_FALSE
        };
        proof {
            lemma_field_len(tag, critical, code, Seq::empty());
        }
        let r = self.put_header(tag, critical, code, 0);
        proof {
            assert(header_bytes(Header { tag, code, critical }) + Seq::<u8>::empty()
                =~= header_bytes(Header { tag, code, critical }));
        }
        r
    }

    /// Appends an unsigned integer field.
    pub fn uint64(&mut self, tag: u64, critical: bool, value: u64) -> (r: Result<(), Error>)
        requires
            old(self).wf(),
        ensures
            final(self).appends(*old(self), tag, uint64_field(tag, critical, value), r),
    {
        self.put_integer(tag, critical, CODE_UINT64, value)
    }

    /// Appends a signed integer field.
    pub fn sint64(&mut self, tag: u64, critical: bool, value: i64) -> (r: Result<(), Error>)
        requires
            old(self).wf(),
        ensures
            final(self).appends(*old(self), tag, sint64_field(tag, critical, value), r),
    {
        self.put_integer(tag, critical, CODE_SINT64, zigzag::encode(value))
    }

    /// Appends a field whose value is one integer.
    fn put_integer(&mut self, tag: u64, critical: bool, code: u8, value: u64) -> (r: Result<
        (),
        Error,
    >)
        requires
            old(self).wf(),
            code < 8,
        ensures
            final(self).appends(*old(self), tag, field(tag, critical, code, vint(value)), r),
    {
        proof {
            lemma_field_len(tag, critical, code, vint(value));
            lemma_vint_len(value);
        }
        match self.put_header(tag, critical, code, vint64::encoded_len(value)) {
            Err(e) => Err(e),
            Ok(()) => {
                self.put_vint(value);
                proof {
                    assert(self.written() =~= old(self).written() + field(
                        tag,
                        critical,
                        code,
                        vint(value),
                    ));
                }
                Ok(())
            },
        }
    }

    /// Appends a field of binary data.
    pub fn bytes(&mut self, tag: u64, critical: bool, value: &[u8]) -> (r: Result<(), Error>)
        requires
            old(self).wf(),
        ensures
            final(self).appends(*old(self), tag, bytes_field(tag, critical, value@), r),
    {
        self.put_delimited(tag, critical, CODE_BYTES, value)
    }

    /// Appends a string field.
    pub fn string(&mut self, tag: u64, critical: bool, value: &str) -> (r: Result<(), Error>)
        requires
            old(self).wf(),
        ensures
            final(self).appends(*old(self), tag, string_field(tag, critical, value@), r),
    {
        self.put_delimited(tag, critical, CODE_STRING, value.as_bytes())
    }

    /// Appends a field that holds a nested message, given by its encoding.
    pub fn message(&mut self, tag: u64, critical: bool, body: &[u8]) -> (r: Result<(), Error>)
        requires
            old(self).wf(),
        ensures
            final(self).appends(*old(self), tag, message_field(tag, critical, body@), r),
    {
        self.put_delimited(tag, critical, CODE_MESSAGE, body)
    }

    /// Appends a field that holds a sequence of messages, each given by its
    /// encoding.
    #[verifier::rlimit(50)]
    pub fn sequence(&mut self, tag: u64, critical: bool, elements: &[Vec<u8>]) -> (r: Result<
        (),
        Error,
    >)
        requires
            old(self).wf(),
        ensures
            final(self).appends(
                *old(self),
                tag,
                sequence_field(tag, critical, bodies(elements@)),
                r,
            ),
    {
        let ghost all = bodies(elements@);
        let ghost body = sequence_body(all);
        let ghost whole = sequence_field(tag, critical, all);
        let room: usize = self.buffer.len() - self.position;
        proof {
            lemma_field_len(tag, critical, CODE_SEQUENCE, delimited(body));
            lemma_delimited_len(body);
            assert(self.written() + Seq::<u8>::empty() =~= self.written());
        }
        let fitting: Option<usize> = match body_len(elements) {
            None => None,
            Some(inner) => {
                if inner > room || room - inner < vint64::encoded_len(inner as u64) {
                    None
                } else {
                    Some(inner)
                }
            },
        };
        let inner: usize = match fitting {
            None => {
                match self.last_tag {
                    Some(last) => {
                        if tag <= last {
                            return Err(Error::TagOutOfOrder);
                        }
                    },
                    None => {},
                }
                return Err(Error::BufferTooSmall);
            },
            Some(inner) => inner,
        };
        let payload_len: usize = vint64::encoded_len(inner as u64) + inner;
        match self.put_header(tag, critical, CODE_SEQUENCE, payload_len) {
            Err(e) => {
                return Err(e);
            },
            Ok(()) => {},
        }
        self.put_vint(inner as u64);
        self.put_byte(CODE_MESSAGE);
        let ghost prefix = self.written();
        let ghost base = self.position();
        let mut i: usize = 0;
        proof {
            assert(all.take(0) =~= Seq::<Seq<u8>>::empty());
            assert(prefix + Seq::<u8>::empty() =~= prefix);
        }
        while i < elements.len()
            invariant
                i <= elements.len(),
                all == bodies(elements@),
                self.wf(),
                self.capacity() == old(self).capacity(),
                self.last_tag() == Some(tag),
                self.position() == base + elements_bytes(all.take(i as int)).len(),
                self.written() == prefix + elements_bytes(all.take(i as int)),
                base + elements_bytes(all).len() <= self.capacity(),
            decreases elements.len() - i,
        {
            let element: &[u8] = elements[i].as_slice();
            let ghost so_far = elements_bytes(all.take(i as int));
            proof {
                assert(all.take(i + 1) =~= all.take(i as int).push(element@));
                lemma_elements_bytes_push(all.take(i as int), element@);
                lemma_elements_bytes_grows(all, (i + 1) as nat);
                lemma_delimited_len(element@);
            }
            self.put_vint(element.len() as u64);
            self.put_bytes(element);
            proof {
                assert(self.written() =~= prefix + (so_far + delimited(element@)));
            }
            i = i + 1;
        }
        proof {
            assert(all.take(i as int) =~= all);
            assert(self.written() =~= old(self).written() + whole);
        }
        Ok(())
    }

    /// The bytes written, as a part of the buffer.
    pub fn finish(self) -> (written: &'a [u8])
        requires
            self.wf(),
        ensures
            written@ == self.written(),
    {
        let Encoder { buffer, position, last_tag: _ } = self;
        let whole: &'a [u8] = buffer;
        slice_subrange(whole, 0, position)
    }
}

/// A field is as long as its header and its value together.
pub proof fn lemma_field_len(tag: u64, critical: bool, code: u8, payload: Seq<u8>)
    ensures
        field(tag, critical, code, payload).len() == vint_len(tag) + 1 + payload.len(),
{
    lemma_header_len(Header { tag, code, critical });
}

/// A length-delimited value is as long as its length and its bytes
/// together.
pub proof fn lemma_delimited_len(body: Seq<u8>)
    ensures
        delimited(body).len() == vint_len(body.len() as u64) + body.len(),
{
    lemma_vint_len(body.len() as u64);
}

} // verus!
