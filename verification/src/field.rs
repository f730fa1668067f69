//! Field definitions: wire types and per-field attributes.

use vstd::prelude::*;
use vstd::string::StrSliceExecFns;
use crate::error::Error;

verus! {

/// Wire type identifiers
#[derive(Copy, Clone, Debug, PartialEq, Eq, Structural)]
pub enum WireType {
    /// Boolean values. On the wire these are two codes, one for `false` and
    /// one for `true`, and the field has no value bytes.
    Bool,
    /// 64-bit unsigned integer
    UInt64,
    /// 64-bit (zigzag) signed integer
    SInt64,
    /// Binary data
    Bytes,
    /// Unicode string
    String,
    /// Nested message
    Message,
    /// Sequences
    Sequence,
}

/// Size constraint of a field: an exact size, or an inclusive range.
#[derive(Copy, Clone, Debug, PartialEq, Eq)]
pub struct SizeBounds {
    /// Size of a fixed-size field
    pub size: Option<usize>,
    /// Minimum size of a variable-sized field
    pub min: Option<usize>,
    /// Maximum size of a variable-sized field
    pub max: Option<usize>,
}

impl SizeBounds {
    /// Whether a value of `len` bytes meets the constraint.
    pub open spec fn permits(self, len: nat) -> bool {
        &&& self.size matches Some(size) ==> len == size
        &&& self.min matches Some(min) ==> len >= min
        &&& self.max matches Some(max) ==> len <= max
    }

    /// No constraint: every size is permitted.
    pub fn unbounded() -> (bounds: SizeBounds)
        ensures
            bounds == (SizeBounds { size: None, min: None, max: None }),
            forall|len: nat| bounds.permits(len),
    {
        SizeBounds { size: None, min: None, max: None }
    }

    /// Whether there is no constraint.
    pub open spec fn is_unbounded(self) -> bool {
        self.size is None && self.min is None && self.max is None
    }

    /// Whether there is no constraint.
    pub fn is_free(&self) -> (free: bool)
        ensures
            free == self.is_unbounded(),
    {
        self.size.is_none() && self.min.is_none() && self.max.is_none()
    }

    /// Whether a value of more bytes than a `usize` can hold meets the
    /// constraint: it does where no size and no maximum is declared.
    pub fn allows_beyond(&self) -> (ok: bool)
        ensures
            forall|len: nat| len > usize::MAX ==> ok == #[trigger] self.permits(len),
    {
        self.size.is_none() && self.max.is_none()
    }

    /// Ok where a value of `len` bytes meets the constraint.
    pub fn check(&self, len: usize) -> (r: Result<(), Error>)
        ensures
            r == (if self.permits(len as nat) {
                Ok::<(), Error>(())
            } else {
                Err::<(), Error>(Error::SizeOutOfBounds)
            }),
    {
        if self.allows(len) {
            Ok(())
        } else {
            Err(Error::SizeOutOfBounds)
        }
    }

    /// Whether a value of `len` bytes meets the constraint.
    pub fn allows(&self, len: usize) -> (ok: bool)
        ensures
            ok == self.permits(len as nat),
    {
        let size_ok: bool = match self.size {
            Some(size) => len == size,
            None => true,
        };
        let min_ok: bool = match self.min {
            Some(min) => len >= min,
            None => true,
        };
        let max_ok: bool = match self.max {
            Some(max) => len <= max,
            None => true,
        };
        size_ok && min_ok && max_ok
    }
}

/// Attributes of a field in a definition
#[derive(Copy, Clone, Debug, PartialEq, Eq)]
pub struct Attrs {
    /// Tag which identifies the field
    tag: u64,
    /// Wire type of the field
    wire_type: WireType,
    /// Is this field critical?
    critical: bool,
    /// Size constraint of the field
    bounds: SizeBounds,
}

impl Attrs {
    /// The field identifier tag.
    pub closed spec fn spec_tag(&self) -> u64 {
        self.tag
    }

    /// The wire type.
    pub closed spec fn spec_wire_type(&self) -> WireType {
        self.wire_type
    }

    /// Whether the field is critical.
    pub closed spec fn spec_is_critical(&self) -> bool {
        self.critical
    }

    /// The size constraint.
    pub closed spec fn spec_bounds(&self) -> SizeBounds {
        self.bounds
    }

    /// A size is constrained only where the wire type has one.
    pub open spec fn wf(&self) -> bool {
        self.spec_wire_type().has_size() || self.spec_bounds().is_unbounded()
    }

    /// The attributes of a field as a definition states them, the wire type
    /// by the token that names it.
    pub fn new(
        tag: u64,
        wire_type: &str,
        critical: bool,
        size: Option<usize>,
        min: Option<usize>,
        max: Option<usize>,
    ) -> (r: Result<Attrs, Error>)
        ensures
            match wire_type_named(wire_type@) {
                Some(named) => {
                    if named.has_size() || (SizeBounds { size, min, max }).is_unbounded() {
                        &&& r matches Ok(attrs)
                        &&& attrs.spec_tag() == tag
                        &&& attrs.spec_wire_type() == named
                        &&& attrs.spec_is_critical() == critical
                        &&& attrs.spec_bounds() == (SizeBounds { size, min, max })
                        &&& attrs.wf()
                    } else {
                        r matches Err(e) && e == Error::BoundsOutOfPlace
                    }
                },
                None => r matches Err(e) && e == Error::UnknownWireType,
            },
    {
        match WireType::parse(wire_type) {
            Err(e) => Err(e),
            Ok(wire_type) => {
                let bounds = SizeBounds { size, min, max };
                if !wire_type.is_sized() && !bounds.is_free() {
                    return Err(Error::BoundsOutOfPlace);
                }
                Ok(Attrs { tag, wire_type, critical, bounds })
            },
        }
    }

    /// Get the field identifier tag
    #[verifier::when_used_as_spec(spec_tag)]
    pub fn tag(&self) -> (tag: u64)
        ensures
            tag == self.spec_tag(),
    {
        self.tag
    }

    /// Get the wire type
    #[verifier::when_used_as_spec(spec_wire_type)]
    pub fn wire_type(&self) -> (wire_type: WireType)
        ensures
            wire_type == self.spec_wire_type(),
    {
        self.wire_type
    }

    /// Is this field critical?
    #[verifier::when_used_as_spec(spec_is_critical)]
    pub fn is_critical(&self) -> (critical: bool)
        ensures
            critical == self.spec_is_critical(),
    {
        self.critical
    }

    /// Get the size constraint
    #[verifier::when_used_as_spec(spec_bounds)]
    pub fn bounds(&self) -> (bounds: SizeBounds)
        ensures
            bounds == self.spec_bounds(),
    {
        self.bounds
    }
}

/// The wire type that a definition names by `token`, if any.
pub open spec fn wire_type_named(token: Seq<char>) -> Option<WireType> {
    if token == "bool"@ {
        Some(WireType::Bool)
    } else if token == "uint64"@ {
        Some(WireType::UInt64)
    } else if token == "sint64"@ {
        Some(WireType::SInt64)
    } else if token == "bytes"@ {
        Some(WireType::Bytes)
    } else if token == "string"@ {
        Some(WireType::String)
    } else if token == "message"@ {
        Some(WireType::Message)
    } else if token == "sequence"@ {
        Some(WireType::Sequence)
    } else {
        None
    }
}

/// Whether two strings hold the same characters.
fn same_text(left: &str, right: &str) -> (same: bool)
    ensures
        same == (left@ == right@),
{
    let count: usize = left.unicode_len();
    if count != right.unicode_len() {
        return false;
    }
    let mut i: usize = 0;
    while i < count
        invariant
            i <= count,
            count == left@.len(),
            count == right@.len(),
            forall|j: int| 0 <= j < i ==> left@[j] == right@[j],
        decreases count - i,
    {
        if left.get_char(i) != right.get_char(i) {
            return false;
        }
        i = i + 1;
    }
    proof {
        assert(left@ =~= right@);
    }
    true
}

impl WireType {
    /// The name of the value type that a field of this wire type holds, or
    /// nothing for the types that are themselves made of messages.
    pub open spec fn value_type(self) -> Option<Seq<char>> {
        match self {
            WireType::Bool => Some("bool"@),
            WireType::UInt64 => Some("u64"@),
            WireType::SInt64 => Some("i64"@),
            WireType::Bytes => Some("&[u8]"@),
            WireType::String => Some("&str"@),
            WireType::Message => None,
            WireType::Sequence => None,
        }
    }

    /// Parse a wire type from the token that names it in a definition.
    pub fn parse(s: &str) -> (r: Result<WireType, Error>)
        ensures
            r == (match wire_type_named(s@) {
                Some(wire_type) => Ok::<WireType, Error>(wire_type),
                None => Err::<WireType, Error>(Error::UnknownWireType),
            }),
    {
        if same_text(s, "bool") {
            Ok(WireType::Bool)
        } else if same_text(s, "uint64") {
            Ok(WireType::UInt64)
        } else if same_text(s, "sint64") {
            Ok(WireType::SInt64)
        } else if same_text(s, "bytes") {
            Ok(WireType::Bytes)
        } else if same_text(s, "string") {
            Ok(WireType::String)
        } else if same_text(s, "message") {
            Ok(WireType::Message)
        } else if same_text(s, "sequence") {
            Ok(WireType::Sequence)
        } else {
            Err(Error::UnknownWireType)
        }
    }

    /// The token that names this wire type in a definition.
    pub fn token(self) -> (token: &'static str)
        ensures
            wire_type_named(token@) == Some(self),
    {
        proof {
            reveal_strlit("bool");
            reveal_strlit("uint64");
            reveal_strlit("sint64");
            reveal_strlit("bytes");
            reveal_strlit("string");
            reveal_strlit("message");
            reveal_strlit("sequence");
            assert("bool"@.len() == 4);
            assert("uint64"@.len() == 6);
            assert("sint64"@.len() == 6);
            assert("bytes"@.len() == 5);
            assert("string"@.len() == 6);
            assert("message"@.len() == 7);
            assert("sequence"@.len() == 8);
            assert("uint64"@[0] == 'u' && "sint64"@[0] == 's' && "string"@[0] == 's');
            assert("sint64"@[1] == 'i' && "string"@[1] == 't');
        }
        match self {
            WireType::Bool => "bool",
            WireType::UInt64 => "uint64",
            WireType::SInt64 => "sint64",
            WireType::Bytes => "bytes",
            WireType::String => "string",
            WireType::Message => "message",
            WireType::Sequence => "sequence",
        }
    }

    /// Get the name of the Rust type for this wire type
    pub fn rust_type(self) -> (r: Option<&'static str>)
        ensures
            r is Some <==> self.value_type() is Some,
            r matches Some(name) ==> name@ == self.value_type()->Some_0,
    {
        match self {
            WireType::Bool => Some("bool"),
            WireType::UInt64 => Some("u64"),
            WireType::SInt64 => Some("i64"),
            WireType::Bytes => Some("&[u8]"),
            WireType::String => Some("&str"),
            WireType::Message => None,
            WireType::Sequence => None,
        }
    }

    /// Whether a value of this wire type has a size that varies, so that a
    /// definition can constrain it: binary data, strings, nested messages
    /// and sequences have one, booleans and integers have none.
    pub open spec fn has_size(self) -> bool {
        self == WireType::Bytes || self == WireType::String || self == WireType::Message || self
            == WireType::Sequence
    }

    /// Does a value of this [`WireType`] have a size that varies?
    pub fn is_sized(self) -> (r: bool)
        ensures
            r == self.has_size(),
    {
        match self {
            WireType::Bytes => true,
            WireType::String => true,
            WireType::Message => true,
            WireType::Sequence => true,
            _ => false,
        }
    }

    /// Is this [`WireType`] a `Message`?
    pub fn is_message(self) -> (r: bool)
        ensures
            r == (self == WireType::Message),
    {
        match self {
            WireType::Message => true,
            _ => false,
        }
    }

    /// Is this [`WireType`] a `Sequence`?
    pub fn is_sequence(self) -> (r: bool)
        ensures
            r == (self == WireType::Sequence),
    {
        match self {
            WireType::Sequence => true,
            _ => false,
        }
    }

    /// Is the value of this [`WireType`] borrowed from the input (`Bytes`, `String`)?
    pub fn is_ref_type(self) -> (r: bool)
        ensures
            r == (self == WireType::Bytes || self == WireType::String),
    {
        match self {
            WireType::Bytes => true,
            WireType::String => true,
            _ => false,
        }
    }

    /// Is this [`WireType`] itself made of messages (`Message`, `Sequence`)?
    pub fn is_recursive(self) -> (r: bool)
        ensures
            r == (self == WireType::Message || self == WireType::Sequence),
    {
        match self {
            WireType::Message => true,
            WireType::Sequence => true,
            _ => false,
        }
    }
}

} // verus!
