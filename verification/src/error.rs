//! Error taxonomy.

use vstd::prelude::*;
use crate::message::Element;

verus! {

/// Everything that encoding, decoding or reading a definition can fail with.
#[derive(Copy, Clone, Debug, PartialEq, Eq, Structural)]
pub enum Error {
    /// The input ends inside the named element.
    TruncatedInput { element: Element },
    /// A tag is not strictly greater than the tag before it.
    TagOutOfOrder,
    /// A field that the reader does not know carries the critical flag.
    UnknownCriticalField,
    /// The field has the requested tag but another wire type.
    UnexpectedWireType,
    /// A length breaks the declared fixed size or minimum/maximum.
    SizeOutOfBounds,
    /// Bytes are left over where the message has to end.
    TrailingData,
    /// The named element is present but is not a canonical encoding.
    InvalidEncoding { element: Element },
    /// The output buffer cannot hold the field.
    BufferTooSmall,
    /// No alternative of an enumeration-like message has the leading tag.
    UnknownTag,
    /// A definition names a wire type that does not exist.
    UnknownWireType,
    /// A definition constrains the size of a field whose wire type has none.
    BoundsOutOfPlace,
    /// A definition places its digest behind more fields than it has.
    DigestOutOfPlace,
    /// There are more or fewer values than the definition has fields.
    FieldCount,
}

} // verus!
