//! The one-byte type tags of the MessagePack format.
use vstd::prelude::*;

verus! {

/// The type tag that starts every encoded value. Fixed variants embed a small
/// value or length in the tag byte itself.
#[derive(Clone, Copy, Debug, PartialEq, Eq, Structural)]
pub enum Marker {
    FixPos(u8),
    FixNeg(i8),
    Null,
    True,
    False,
    U8,
    U16,
    U32,
    U64,
    I8,
    I16,
    I32,
    I64,
    F32,
    F64,
    FixStr(u8),
    Str8,
    Str16,
    Str32,
    Bin8,
    Bin16,
    Bin32,
    FixArray(u8),
    Array16,
    Array32,
    FixMap(u8),
    Map16,
    Map32,
    FixExt1,
    FixExt2,
    FixExt4,
    FixExt8,
    FixExt16,
    Ext8,
    Ext16,
    Ext32,
    Reserved,
}

/// The marker that a tag byte stands for; total over all 256 bytes.
pub open spec fn marker_of_byte(b: u8) -> Marker {
    if b <= 0x7f {
        Marker::FixPos(b)
    } else if b <= 0x8f {
        Marker::FixMap((b - 0x80) as u8)
    } else if b <= 0x9f {
        Marker::FixArray((b - 0x90) as u8)
    } else if b <= 0xbf {
        Marker::FixStr((b - 0xa0) as u8)
    } else if b >= 0xe0 {
        Marker::FixNeg((b - 256) as i8)
    } else {
        match b {
            0xc0 => Marker::Null,
            0xc2 => Marker::False,
            0xc3 => Marker::True,
            0xc4 => Marker::Bin8,
            0xc5 => Marker::Bin16,
            0xc6 => Marker::Bin32,
            0xc7 => Marker::Ext8,
            0xc8 => Marker::Ext16,
            0xc9 => Marker::Ext32,
            0xca => Marker::F32,
            0xcb => Marker::F64,
            0xcc => Marker::U8,
            0xcd => Marker::U16,
            0xce => Marker::U32,
            0xcf => Marker::U64,
            0xd0 => Marker::I8,
            0xd1 => Marker::I16,
            0xd2 => Marker::I32,
            0xd3 => Marker::I64,
            0xd4 => Marker::FixExt1,
            0xd5 => Marker::FixExt2,
            0xd6 => Marker::FixExt4,
            0xd7 => Marker::FixExt8,
            0xd8 => Marker::FixExt16,
            0xd9 => Marker::Str8,
            0xda => Marker::Str16,
            0xdb => Marker::Str32,
            0xdc => Marker::Array16,
            0xdd => Marker::Array32,
            0xde => Marker::Map16,
            0xdf => Marker::Map32,
            _ => Marker::Reserved,
        }
    }
}

/// The tag byte of a marker.
pub open spec fn byte_of_marker(m: Marker) -> u8 {
    match m {
        Marker::FixPos(v) => v,
        Marker::FixMap(n) => (0x80 + n) as u8,
        Marker::FixArray(n) => (0x90 + n) as u8,
        Marker::FixStr(n) => (0xa0 + n) as u8,
        Marker::FixNeg(v) => (v + 256) as u8,
        Marker::Null => 0xc0,
        Marker::Reserved => 0xc1,
        Marker::False => 0xc2,
        Marker::True => 0xc3,
        Marker::Bin8 => 0xc4,
        Marker::Bin16 => 0xc5,
        Marker::Bin32 => 0xc6,
        Marker::Ext8 => 0xc7,
        Marker::Ext16 => 0xc8,
        Marker::Ext32 => 0xc9,
        Marker::F32 => 0xca,
        Marker::F64 => 0xcb,
        Marker::U8 => 0xcc,
        Marker::U16 => 0xcd,
        Marker::U32 => 0xce,
        Marker::U64 => 0xcf,
        Marker::I8 => 0xd0,
        Marker::I16 => 0xd1,
        Marker::I32 => 0xd2,
        Marker::I64 => 0xd3,
        Marker::FixExt1 => 0xd4,
        Marker::FixExt2 => 0xd5,
        Marker::FixExt4 => 0xd6,
        Marker::FixExt8 => 0xd7,
        Marker::FixExt16 => 0xd8,
        Marker::Str8 => 0xd9,
        Marker::Str16 => 0xda,
        Marker::Str32 => 0xdb,
        Marker::Array16 => 0xdc,
        Marker::Array32 => 0xdd,
        Marker::Map16 => 0xde,
        Marker::Map32 => 0xdf,
    }
}

impl Marker {
    /// Whether an embedded value or length lies in the range its tag can hold.
    pub open spec fn well_formed(self) -> bool {
        match self {
            Marker::FixPos(v) => v <= 0x7f,
            Marker::FixNeg(v) => -32 <= v <= -1,
            Marker::FixStr(n) => n <= 31,
            Marker::FixArray(n) => n <= 15,
            Marker::FixMap(n) => n <= 15,
            _ => true,
        }
    }

    /// Decodes a tag byte; every byte maps to exactly one marker.
    pub fn from_u8(b: u8) -> (m: Marker)
        ensures
            m == marker_of_byte(b),
    {
        if b <= 0x7f {
            Marker::FixPos(b)
        } else if b <= 0x8f {
            Marker::FixMap(b - 0x80)
        } else if b <= 0x9f {
            Marker::FixArray(b - 0x90)
        } else if b <= 0xbf {
            Marker::FixStr(b - 0xa0)
        } else if b >= 0xe0 {
            Marker::FixNeg((b as i16 - 256) as i8)
        } else {
            match b {
                0xc0 => Marker::Null,
                0xc2 => Marker::False,
                0xc3 => Marker::True,
                0xc4 => Marker::Bin8,
                0xc5 => Marker::Bin16,
                0xc6 => Marker::Bin32,
                0xc7 => Marker::Ext8,
                0xc8 => Marker::Ext16,
                0xc9 => Marker::Ext32,
                0xca => Marker::F32,
                0xcb => Marker::F64,
                0xcc => Marker::U8,
                0xcd => Marker::U16,
                0xce => Marker::U32,
                0xcf => Marker::U64,
                0xd0 => Marker::I8,
                0xd1 => Marker::I16,
                0xd2 => Marker::I32,
                0xd3 => Marker::I64,
                0xd4 => Marker::FixExt1,
                0xd5 => Marker::FixExt2,
                0xd6 => Marker::FixExt4,
                0xd7 => Marker::FixExt8,
                0xd8 => Marker::FixExt16,
                0xd9 => Marker::Str8,
                0xda => Marker::Str16,
                0xdb => Marker::Str32,
                0xdc => Marker::Array16,
                0xdd => Marker::Array32,
                0xde => Marker::Map16,
                0xdf => Marker::Map32,
                _ => Marker::Reserved,
            }
        }
    }

    /// Encodes this marker as its tag byte.
    pub fn to_u8(self) -> (b: u8)
        requires
            self.well_formed(),
        ensures
            b == byte_of_marker(self),
    {
        match self {
            Marker::FixPos(v) => v,
            Marker::FixMap(n) => 0x80 + n,
            Marker::FixArray(n) => 0x90 + n,
            Marker::FixStr(n) => 0xa0 + n,
            Marker::FixNeg(v) => (v as i16 + 256) as u8,
            Marker::Null => 0xc0,
            Marker::Reserved => 0xc1,
            Marker::False => 0xc2,
            Marker::True => 0xc3,
            Marker::Bin8 => 0xc4,
            Marker::Bin16 => 0xc5,
            Marker::Bin32 => 0xc6,
            Marker::Ext8 => 0xc7,
            Marker::Ext16 => 0xc8,
            Marker::Ext32 => 0xc9,
            Marker::F32 => 0xca,
            Marker::F64 => 0xcb,
            Marker::U8 => 0xcc,
            Marker::U16 => 0xcd,
            Marker::U32 => 0xce,
            Marker::U64 => 0xcf,
            Marker::I8 => 0xd0,
            Marker::I16 => 0xd1,
            Marker::I32 => 0xd2,
            Marker::I64 => 0xd3,
            Marker::FixExt1 => 0xd4,
            Marker::FixExt2 => 0xd5,
            Marker::FixExt4 => 0xd6,
            Marker::FixExt8 => 0xd7,
            Marker::FixExt16 => 0xd8,
            Marker::Str8 => 0xd9,
            Marker::Str16 => 0xda,
            Marker::Str32 => 0xdb,
            Marker::Array16 => 0xdc,
            Marker::Array32 => 0xdd,
            Marker::Map16 => 0xde,
            Marker::Map32 => 0xdf,
        }
    }
}

/// Every tag byte decodes to a well-formed marker, and encoding that marker
/// gives the byte back.
pub proof fn lemma_byte_marker_byte(b: u8)
    ensures
        marker_of_byte(b).well_formed(),
        byte_of_marker(marker_of_byte(b)) == b,
{
}

/// Every well-formed marker survives encoding to its tag byte and decoding it.
pub proof fn lemma_marker_byte_marker(m: Marker)
    requires
        m.well_formed(),
    ensures
        marker_of_byte(byte_of_marker(m)) == m,
{
}

} // verus!
