//! Wire tags and structural delimiter bytes.
//!
//! Every value on the wire begins either with a delimiter byte (string,
//! bulk array, list, or map framing) or with a one-byte type tag.  Tags
//! are a dense enumeration starting at 1; 0 is never assigned, and the
//! delimiter bytes are disjoint from the tag range, so the leading byte
//! of a value is always unambiguous.

use vstd::prelude::*;

verus! {

/// Begin and end delimiter of a bulk array.
pub const ARRAY_DELIMIT: u8 = 61;

/// The escape byte: the byte that follows it is literal content.
pub const ESCAPE: u8 = 92;

/// Begin delimiter of a list.
pub const LIST_BEGIN: u8 = 91;

/// End delimiter of a list.
pub const LIST_END: u8 = 93;

/// Begin delimiter of a map.
pub const MAP_BEGIN: u8 = 123;

/// End delimiter of a map.
pub const MAP_END: u8 = 125;

/// Begin and end delimiter of a string.
pub const STRING_DELIMIT: u8 = 34;

/// Payload byte of boolean true.
pub const TRUE: u8 = 1;

/// Payload byte of boolean false.
pub const FALSE: u8 = 0;

/// The scalar and sentinel kinds of the wire format.
#[derive(Clone, Copy, Debug, PartialEq, Eq, Structural)]
pub enum Type {
    Nil,
    Bool,
    F32,
    F64,
    I8,
    I16,
    I32,
    I64,
    U8,
    U16,
    U32,
    U64,
}

impl Type {
    /// The one-byte wire tag of this kind.
    pub open spec fn tag(self) -> u8 {
        match self {
            Type::Nil => 1,
            Type::Bool => 2,
            Type::F32 => 3,
            Type::F64 => 4,
            Type::I8 => 5,
            Type::I16 => 6,
            Type::I32 => 7,
            Type::I64 => 8,
            Type::U8 => 9,
            Type::U16 => 10,
            Type::U32 => 11,
            Type::U64 => 12,
        }
    }

    /// The kind identified by a wire tag byte, if any.
    pub open spec fn from_tag(t: u8) -> Option<Type> {
        if t == 1 {
            Some(Type::Nil)
        } else if t == 2 {
            Some(Type::Bool)
        } else if t == 3 {
            Some(Type::F32)
        } else if t == 4 {
            Some(Type::F64)
        } else if t == 5 {
            Some(Type::I8)
        } else if t == 6 {
            Some(Type::I16)
        } else if t == 7 {
            Some(Type::I32)
        } else if t == 8 {
            Some(Type::I64)
        } else if t == 9 {
            Some(Type::U8)
        } else if t == 10 {
            Some(Type::U16)
        } else if t == 11 {
            Some(Type::U32)
        } else if t == 12 {
            Some(Type::U64)
        } else {
            None
        }
    }

    /// The fixed payload width of this kind in bytes (0 for the none sentinel).
    pub open spec fn width(self) -> nat {
        match self {
            Type::Nil => 0,
            Type::Bool => 1,
            Type::F32 => 4,
            Type::F64 => 8,
            Type::I8 => 1,
            Type::I16 => 2,
            Type::I32 => 4,
            Type::I64 => 8,
            Type::U8 => 1,
            Type::U16 => 2,
            Type::U32 => 4,
            Type::U64 => 8,
        }
    }

    /// The one-byte wire tag of this kind.
    pub fn to_tag(self) -> (t: u8)
        ensures
            t == self.tag(),
    {
        match self {
            Type::Nil => 1,
            Type::Bool => 2,
            Type::F32 => 3,
            Type::F64 => 4,
            Type::I8 => 5,
            Type::I16 => 6,
            Type::I32 => 7,
            Type::I64 => 8,
            Type::U8 => 9,
            Type::U16 => 10,
            Type::U32 => 11,
            Type::U64 => 12,
        }
    }

    /// Look a wire tag byte up in the tag table.
    pub fn lookup_tag(t: u8) -> (r: Option<Type>)
        ensures
            r == Type::from_tag(t),
    {
        if t == 1 {
            Some(Type::Nil)
        } else if t == 2 {
            Some(Type::Bool)
        } else if t == 3 {
            Some(Type::F32)
        } else if t == 4 {
            Some(Type::F64)
        } else if t == 5 {
            Some(Type::I8)
        } else if t == 6 {
            Some(Type::I16)
        } else if t == 7 {
            Some(Type::I32)
        } else if t == 8 {
            Some(Type::I64)
        } else if t == 9 {
            Some(Type::U8)
        } else if t == 10 {
            Some(Type::U16)
        } else if t == 11 {
            Some(Type::U32)
        } else if t == 12 {
            Some(Type::U64)
        } else {
            None
        }
    }

    /// The fixed payload width of this kind in bytes (0 for the none sentinel).
    pub fn byte_width(self) -> (w: usize)
        ensures
            w == self.width(),
    {
        match self {
            Type::Nil => 0,
            Type::Bool => 1,
            Type::F32 => 4,
            Type::F64 => 8,
            Type::I8 => 1,
            Type::I16 => 2,
            Type::I32 => 4,
            Type::I64 => 8,
            Type::U8 => 1,
            Type::U16 => 2,
            Type::U32 => 4,
            Type::U64 => 8,
        }
    }

    /// A human-readable name for this kind.
    pub fn name(&self) -> &'static str {
        match self {
            Type::Nil => "none",
            Type::Bool => "boolean",
            Type::F32 => "32-bit float",
            Type::F64 => "64-bit float",
            Type::I8 => "8-bit int",
            Type::I16 => "16-bit int",
            Type::I32 => "32-bit int",
            Type::I64 => "64-bit int",
            Type::U8 => "8-bit unsigned int",
            Type::U16 => "16-bit unsigned int",
            Type::U32 => "32-bit unsigned int",
            Type::U64 => "64-bit unsigned int",
        }
    }

    /// Tags round-trip through the tag table.
    pub proof fn lemma_tag_round_trip(self)
        ensures
            Type::from_tag(self.tag()) == Some(self),
    {
    }
}

/// Delimiters are disjoint from the tag range, so the leading byte of a
/// value is unambiguous.
pub proof fn lemma_delimiters_are_not_tags()
    ensures
        Type::from_tag(ARRAY_DELIMIT).is_none(),
        Type::from_tag(ESCAPE).is_none(),
        Type::from_tag(LIST_BEGIN).is_none(),
        Type::from_tag(LIST_END).is_none(),
        Type::from_tag(MAP_BEGIN).is_none(),
        Type::from_tag(MAP_END).is_none(),
        Type::from_tag(STRING_DELIMIT).is_none(),
{
}

} // verus!
