//! Field headers: the tag, the wire type and the critical flag that precede
//! every value.
//!
//! A header is the tag as a variable-length integer followed by one byte
//! that holds the wire-type code in its low three bits and the critical flag
//! in the fourth. The higher bits of that byte are zero.

use vstd::prelude::*;
use crate::error::Error;
use crate::field::WireType;
use crate::message::Element;
use crate::vint64;
use crate::vint64::{overwritten, parse_vint, vint, vint_len};

verus! {

broadcast use vstd::slice::group_slice_axioms;

/// Wire-type code of `false`.
pub const CODE_FALSE: u8 = 0;

/// Wire-type code of `true`.
pub const CODE_TRUE: u8 = 1;

/// Wire-type code of unsigned integers.
pub const CODE_UINT64: u8 = 2;

/// Wire-type code of signed integers.
pub const CODE_SINT64: u8 = 3;

/// Wire-type code of binary data.
pub const CODE_BYTES: u8 = 4;

/// Wire-type code of strings.
pub const CODE_STRING: u8 = 5;

/// Wire-type code of nested messages.
pub const CODE_MESSAGE: u8 = 6;

/// Wire-type code of sequences.
pub const CODE_SEQUENCE: u8 = 7;

/// The header of one field.
#[derive(Copy, Clone, Debug, PartialEq, Eq, Structural)]
pub struct Header {
    /// Tag which identifies the field
    pub tag: u64,
    /// Wire-type code, below 8
    pub code: u8,
    /// Is this field critical?
    pub critical: bool,
}

/// The byte that follows the tag.
pub open spec fn kind_byte(code: u8, critical: bool) -> u8 {
    if critical {
        (code + 8) as u8
    } else {
        code
    }
}

/// The encoding of a header.
pub open spec fn header_bytes(header: Header) -> Seq<u8> {
    vint(header.tag) + seq![kind_byte(header.code, header.critical)]
}

/// Reads one header from the front of `input`: the header and the number of
/// bytes it takes.
pub open spec fn parse_header(input: Seq<u8>) -> Result<(Header, nat), Error> {
    match parse_vint(input, Element::Tag) {
        Err(e) => Err(e),
        Ok((tag, len)) => {
            if input.len() <= len {
                Err(Error::TruncatedInput { element: Element::Tag })
            } else if input[len as int] >= 16 {
                Err(Error::InvalidEncoding { element: Element::Tag })
            } else {
                Ok(
                    (
                        Header {
                            tag,
                            code: input[len as int] % 8,
                            critical: input[len as int] >= 8,
                        },
                        len + 1,
                    ),
                )
            }
        },
    }
}

impl Header {
    /// The wire-type code is one of the eight that there are.
    pub open spec fn wf(self) -> bool {
        self.code < 8
    }

    /// The wire type that this header's code stands for.
    pub open spec fn wire_type(self) -> WireType {
        if self.code <= CODE_TRUE {
            WireType::Bool
        } else if self.code == CODE_UINT64 {
            WireType::UInt64
        } else if self.code == CODE_SINT64 {
            WireType::SInt64
        } else if self.code == CODE_BYTES {
            WireType::Bytes
        } else if self.code == CODE_STRING {
            WireType::String
        } else if self.code == CODE_MESSAGE {
            WireType::Message
        } else {
            WireType::Sequence
        }
    }

    /// The wire type that this header's code stands for.
    pub fn kind(&self) -> (wire_type: WireType)
        ensures
            wire_type == self.wire_type(),
    {
        if self.code <= CODE_TRUE {
            WireType::Bool
        } else if self.code == CODE_UINT64 {
            WireType::UInt64
        } else if self.code == CODE_SINT64 {
            WireType::SInt64
        } else if self.code == CODE_BYTES {
            WireType::Bytes
        } else if self.code == CODE_STRING {
            WireType::String
        } else if self.code == CODE_MESSAGE {
            WireType::Message
        } else {
            WireType::Sequence
        }
    }

    /// Number of bytes that the header of a field with this tag takes.
    pub fn encoded_len(tag: u64) -> (len: usize)
        ensures
            len == vint_len(tag) + 1,
            2 <= len <= 10,
    {
        vint64::encoded_len(tag) + 1
    }

    /// Reads one header from the front of `input`.
    pub fn decode(input: &[u8]) -> (r: Result<(Header, usize), Error>)
        ensures
            match parse_header(input@) {
                Ok((header, len)) => r == Ok::<(Header, usize), Error>((header, len as usize)),
                Err(e) => r == Err::<(Header, usize), Error>(e),
            },
            r matches Ok((header, len)) ==> header.code < 8 && 2 <= len <= 10 && len
                <= input@.len(),
    {
        match vint64::decode(input, Element::Tag) {
            Err(e) => Err(e),
            Ok((tag, len)) => {
                if input.len() <= len {
                    Err(Error::TruncatedInput { element: Element::Tag })
                } else {
                    let kind: u8 = input[len];
                    if kind >= 16 {
                        Err(Error::InvalidEncoding { element: Element::Tag })
                    } else {
                        Ok((Header { tag, code: kind % 8, critical: kind >= 8 }, len + 1))
                    }
                }
            },
        }
    }

    /// Writes this header into `buffer` from index `at` on and returns its
    /// length, or refuses when it does not fit.
    pub fn encode(&self, buffer: &mut [u8], at: usize) -> (r: Result<usize, Error>)
        requires
            self.wf(),
        ensures
            final(buffer)@.len() == old(buffer)@.len(),
            match r {
                Ok(len) => {
                    &&& len == vint_len(self.tag) + 1
                    &&& at + len <= old(buffer)@.len()
                    &&& final(buffer)@ == overwritten(old(buffer)@, at as int, header_bytes(*self))
                },
                Err(e) => {
                    &&& e == Error::BufferTooSmall
                    &&& at + vint_len(self.tag) + 1 > old(buffer)@.len()
                    &&& final(buffer)@ == old(buffer)@
                },
            },
    {
        let len: usize = vint64::encoded_len(self.tag);
        if at > buffer.len() || buffer.len() - at <= len {
            return Err(Error::BufferTooSmall);
        }
        let ghost before = buffer@;
        match vint64::encode(self.tag, buffer, at) {
            Err(e) => Err(e),
            Ok(_) => {
                let kind: u8 = if self.critical {
                    self.code + 8
                } else {
                    self.code
                };
                buffer[at + len] = kind;
                proof {
                    vint64::lemma_vint_len(self.tag);
                    assert(buffer@ =~= overwritten(before, at as int, header_bytes(*self)));
                }
                Ok(len + 1)
            },
        }
    }
}

/// The encoding of a header has one byte more than its tag.
pub proof fn lemma_header_len(header: Header)
    ensures
        header_bytes(header).len() == vint_len(header.tag) + 1,
        2 <= header_bytes(header).len() <= 10,
{
    vint64::lemma_vint_len(header.tag);
}

/// Decoding an encoded header gives the header back, whatever follows it.
pub proof fn lemma_parse_header_of_bytes(header: Header, rest: Seq<u8>)
    requires
        header.code < 8,
    ensures
        parse_header(header_bytes(header) + rest) == Ok::<(Header, nat), Error>(
            (header, header_bytes(header).len()),
        ),
{
    let kind = seq![kind_byte(header.code, header.critical)];
    let input = header_bytes(header) + rest;
    vint64::lemma_vint_len(header.tag);
    assert(input =~= vint(header.tag) + (kind + rest));
    vint64::lemma_parse_vint_of_vint(header.tag, kind + rest, Element::Tag);
    assert(input[vint_len(header.tag) as int] == kind_byte(header.code, header.critical));
}

/// Only the encoding of a header decodes to it.
pub proof fn lemma_bytes_of_parse_header(input: Seq<u8>)
    requires
        parse_header(input) is Ok,
    ensures
        ({
            let (header, len) = parse_header(input)->Ok_0;
            &&& header.code < 8
            &&& len <= input.len()
            &&& len == header_bytes(header).len()
            &&& input.take(len as int) == header_bytes(header)
        }),
{
    let (header, len) = parse_header(input)->Ok_0;
    vint64::lemma_vint_of_parse_vint(input, Element::Tag);
    let tag_len = (len - 1) as int;
    assert(input.take(len as int) =~= input.take(tag_len) + seq![input[tag_len]]);
}

/// A successful parse does not depend on what follows the header.
pub proof fn lemma_parse_header_extends(input: Seq<u8>, more: Seq<u8>)
    requires
        parse_header(input) is Ok,
    ensures
        parse_header(input + more) == parse_header(input),
{
    vint64::lemma_parse_vint_extends(input, more, Element::Tag);
}

} // verus!
