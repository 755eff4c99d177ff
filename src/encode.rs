//! The byte-sink abstraction and the writers of markers and size-tiered
//! length headers.
use vstd::prelude::*;

use vstd::array::array_as_slice;

use crate::errors::Error;
use crate::marker::{byte_of_marker, Marker};

verus! {

/// A destination that accepts bytes: a growable buffer, or one of fixed
/// capacity.
pub trait RmpWrite {
    /// The bytes written so far.
    spec fn written(&self) -> Seq<u8>;

    /// How many bytes the sink can hold in all; `None` when it grows.
    spec fn capacity(&self) -> Option<nat>;

    /// The sink's own invariant.
    spec fn sink_wf(&self) -> bool;

    /// Appends `buf` whole, or, where it does not fit, writes nothing.
    fn write_bytes(&mut self, buf: &[u8]) -> (r: Result<(), Error>)
        requires
            old(self).sink_wf(),
        ensures
            final(self).sink_wf(),
            final(self).capacity() == old(self).capacity(),
            old(self).capacity() is None || old(self).written().len() + buf@.len()
                <= old(self).capacity()->0 ==> r is Ok && final(self).written()
                == old(self).written() + buf@,
            !(old(self).capacity() is None || old(self).written().len() + buf@.len()
                <= old(self).capacity()->0) ==> r == Err::<(), Error>(Error::DataWriteError)
                && final(self).written() == old(self).written(),
    ;
}

/// Whether `n` more bytes fit in the sink.
pub open spec fn fits<W: RmpWrite>(w: &W, n: nat) -> bool {
    w.capacity() is None || w.written().len() + n <= w.capacity()->0
}

/// `a` is the start of `b`.
pub open spec fn prefix_of(a: Seq<u8>, b: Seq<u8>) -> bool {
    a.len() <= b.len() && a == b.subrange(0, a.len() as int)
}

/// What appending the encoding `enc`, marker first, did to a sink: all of it
/// went in, or a failure left a prefix of it. The marker not fitting is a
/// marker error, anything after it a data error.
pub open spec fn appended<W: RmpWrite>(before: W, after: W, r: Result<(), Error>, enc: Seq<u8>) -> bool {
    &&& after.sink_wf()
    &&& after.capacity() == before.capacity()
    &&& (r is Ok <==> fits(&before, enc.len()))
    &&& r is Ok ==> after.written() == before.written() + enc
    &&& r is Err ==> prefix_of(before.written(), after.written()) && prefix_of(
        after.written(),
        before.written() + enc,
    ) && r->Err_0 == (if fits(&before, 1) {
        Error::DataWriteError
    } else {
        Error::MarkerWriteError
    })
}

/// Two bytes of `v`, most significant first.
pub open spec fn be16_bytes(v: nat) -> Seq<u8> {
    seq![(v / 0x100) as u8, (v % 0x100) as u8]
}

/// Four bytes of `v`, most significant first.
pub open spec fn be32_bytes(v: nat) -> Seq<u8> {
    be16_bytes(v / 0x10000) + be16_bytes(v % 0x10000)
}

/// Eight bytes of `v`, most significant first.
pub open spec fn be64_bytes(v: nat) -> Seq<u8> {
    be32_bytes(v / 0x1_0000_0000) + be32_bytes(v % 0x1_0000_0000)
}

/// The header of a map of `n` pairs, in the smallest tier that holds `n`.
pub open spec fn map_header(n: nat) -> Seq<u8> {
    if n <= 15 {
        seq![byte_of_marker(Marker::FixMap(n as u8))]
    } else if n <= 0xffff {
        seq![byte_of_marker(Marker::Map16)] + be16_bytes(n)
    } else {
        seq![byte_of_marker(Marker::Map32)] + be32_bytes(n)
    }
}

/// The header of an array of `n` elements, in the smallest tier that holds `n`.
pub open spec fn array_header(n: nat) -> Seq<u8> {
    if n <= 15 {
        seq![byte_of_marker(Marker::FixArray(n as u8))]
    } else if n <= 0xffff {
        seq![byte_of_marker(Marker::Array16)] + be16_bytes(n)
    } else {
        seq![byte_of_marker(Marker::Array32)] + be32_bytes(n)
    }
}

/// The header of a string of `n` bytes, in the smallest tier that holds `n`.
pub open spec fn str_header(n: nat) -> Seq<u8> {
    if n <= 31 {
        seq![byte_of_marker(Marker::FixStr(n as u8))]
    } else if n <= 0xff {
        seq![byte_of_marker(Marker::Str8), n as u8]
    } else if n <= 0xffff {
        seq![byte_of_marker(Marker::Str16)] + be16_bytes(n)
    } else {
        seq![byte_of_marker(Marker::Str32)] + be32_bytes(n)
    }
}

/// The header of a binary of `n` bytes, in the smallest tier that holds `n`.
pub open spec fn bin_header(n: nat) -> Seq<u8> {
    if n <= 0xff {
        seq![byte_of_marker(Marker::Bin8), n as u8]
    } else if n <= 0xffff {
        seq![byte_of_marker(Marker::Bin16)] + be16_bytes(n)
    } else {
        seq![byte_of_marker(Marker::Bin32)] + be32_bytes(n)
    }
}

/// The header of an extension of type `ty` with `n` bytes of data: a fixed
/// size where one matches, else the smallest tier that holds `n`.
pub open spec fn ext_header(ty: i8, n: nat) -> Seq<u8> {
    if n == 1 {
        seq![byte_of_marker(Marker::FixExt1), ty as u8]
    } else if n == 2 {
        seq![byte_of_marker(Marker::FixExt2), ty as u8]
    } else if n == 4 {
        seq![byte_of_marker(Marker::FixExt4), ty as u8]
    } else if n == 8 {
        seq![byte_of_marker(Marker::FixExt8), ty as u8]
    } else if n == 16 {
        seq![byte_of_marker(Marker::FixExt16), ty as u8]
    } else if n <= 0xff {
        seq![byte_of_marker(Marker::Ext8), n as u8, ty as u8]
    } else if n <= 0xffff {
        seq![byte_of_marker(Marker::Ext16)] + be16_bytes(n) + seq![ty as u8]
    } else {
        seq![byte_of_marker(Marker::Ext32)] + be32_bytes(n) + seq![ty as u8]
    }
}

/// Appending in two steps appends the concatenation.
pub proof fn lemma_appended_then<W: RmpWrite>(
    a: W,
    b: W,
    c: W,
    r: Result<(), Error>,
    e1: Seq<u8>,
    e2: Seq<u8>,
)
    requires
        e1.len() >= 1,
        appended(a, b, Ok(()), e1),
        c.sink_wf(),
        c.capacity() == b.capacity(),
        fits(&b, e2.len()) ==> r is Ok && c.written() == b.written() + e2,
        !fits(&b, e2.len()) ==> r == Err::<(), Error>(Error::DataWriteError) && c.written()
            == b.written(),
    ensures
        appended(a, c, r, e1 + e2),
{
    let w = a.written();
    assert((w + e1) + e2 =~= w + (e1 + e2));
    if r is Err {
        assert((w + e1) =~= (w + (e1 + e2)).subrange(0, (w + e1).len() as int));
        assert(w =~= (w + e1).subrange(0, w.len() as int));
    }
}

/// The big-endian bytes of a 16-bit value.
pub fn be16(v: u16) -> (r: [u8; 2])
    ensures
        r@ == be16_bytes(v as nat),
{
    let r = [(v / 0x100) as u8, (v % 0x100) as u8];
    proof {
        assert(r@ =~= be16_bytes(v as nat));
    }
    r
}

/// The big-endian bytes of a 32-bit value.
pub fn be32(v: u32) -> (r: [u8; 4])
    ensures
        r@ == be32_bytes(v as nat),
{
    let hi = v / 0x10000;
    let lo = v % 0x10000;
    let r = [(hi / 0x100) as u8, (hi % 0x100) as u8, (lo / 0x100) as u8, (lo % 0x100) as u8];
    proof {
        assert(r@ =~= be32_bytes(v as nat));
    }
    r
}

/// The big-endian bytes of a 64-bit value.
pub fn be64(v: u64) -> (r: [u8; 8])
    ensures
        r@ == be64_bytes(v as nat),
{
    let hi = v / 0x1_0000_0000;
    let lo = v % 0x1_0000_0000;
    let a = hi / 0x10000;
    let b = hi % 0x10000;
    let c = lo / 0x10000;
    let d = lo % 0x10000;
    let r = [
        (a / 0x100) as u8,
        (a % 0x100) as u8,
        (b / 0x100) as u8,
        (b % 0x100) as u8,
        (c / 0x100) as u8,
        (c % 0x100) as u8,
        (d / 0x100) as u8,
        (d % 0x100) as u8,
    ];
    proof {
        assert(r@ =~= be64_bytes(v as nat));
    }
    r
}

/// Writes one marker byte.
pub fn write_marker<W: RmpWrite>(wr: &mut W, m: Marker) -> (r: Result<(), Error>)
    requires
        old(wr).sink_wf(),
        m.well_formed(),
        !(m is Reserved),
    ensures
        appended(*old(wr), *final(wr), r, seq![byte_of_marker(m)]),
{
    let b = [m.to_u8()];
    proof {
        assert(b@ =~= seq![byte_of_marker(m)]);
    }
    let r = match wr.write_bytes(array_as_slice(&b)) {
        Ok(()) => Ok(()),
        Err(_) => Err(Error::MarkerWriteError),
    };
    proof {
        if r is Err {
            let w = old(wr).written();
            assert(w =~= (w + seq![byte_of_marker(m)]).subrange(0, w.len() as int));
            assert(w =~= w.subrange(0, w.len() as int));
        }
    }
    r
}

/// Writes a marker followed by the bytes of its fields.
pub fn write_header<W: RmpWrite>(wr: &mut W, m: Marker, fields: &[u8]) -> (r: Result<(), Error>)
    requires
        old(wr).sink_wf(),
        m.well_formed(),
        !(m is Reserved),
    ensures
        appended(*old(wr), *final(wr), r, seq![byte_of_marker(m)] + fields@),
{
    let ghost a = *wr;
    match write_marker(wr, m) {
        Ok(()) => {},
        Err(e) => {
            proof {
                let e1 = seq![byte_of_marker(m)];
                let w = a.written();
                assert((w + e1) + fields@ =~= w + (e1 + fields@));
                assert(wr.written() =~= (w + (e1 + fields@)).subrange(0, wr.written().len() as int));
            }
            return Err(e);
        },
    }
    let ghost b = *wr;
    let r = wr.write_bytes(fields);
    proof {
        lemma_appended_then(a, b, *wr, r, seq![byte_of_marker(m)], fields@);
    }
    r
}

/// Writes the header of a map of `len` pairs, in the smallest tier.
pub fn write_map_len<W: RmpWrite>(wr: &mut W, len: u32) -> (r: Result<(), Error>)
    requires
        old(wr).sink_wf(),
    ensures
        appended(*old(wr), *final(wr), r, map_header(len as nat)),
{
    if len <= 15 {
        let f: [u8; 0] = [];
        proof {
            assert(f@ =~= Seq::<u8>::empty());
            assert(seq![byte_of_marker(Marker::FixMap(len as u8))] + f@ =~= map_header(len as nat));
        }
        write_header(wr, Marker::FixMap(len as u8), array_as_slice(&f))
    } else if len <= 0xffff {
        let f = be16(len as u16);
        proof {
            assert(seq![byte_of_marker(Marker::Map16)] + f@ =~= map_header(len as nat));
        }
        write_header(wr, Marker::Map16, array_as_slice(&f))
    } else {
        let f = be32(len);
        proof {
            assert(seq![byte_of_marker(Marker::Map32)] + f@ =~= map_header(len as nat));
        }
        write_header(wr, Marker::Map32, array_as_slice(&f))
    }
}

/// Writes the header of an array of `len` elements, in the smallest tier.
pub fn write_array_len<W: RmpWrite>(wr: &mut W, len: u32) -> (r: Result<(), Error>)
    requires
        old(wr).sink_wf(),
    ensures
        appended(*old(wr), *final(wr), r, array_header(len as nat)),
{
    if len <= 15 {
        let f: [u8; 0] = [];
        proof {
            assert(seq![byte_of_marker(Marker::FixArray(len as u8))] + f@ =~= array_header(
                len as nat,
            ));
        }
        write_header(wr, Marker::FixArray(len as u8), array_as_slice(&f))
    } else if len <= 0xffff {
        let f = be16(len as u16);
        proof {
            assert(seq![byte_of_marker(Marker::Array16)] + f@ =~= array_header(len as nat));
        }
        write_header(wr, Marker::Array16, array_as_slice(&f))
    } else {
        let f = be32(len);
        proof {
            assert(seq![byte_of_marker(Marker::Array32)] + f@ =~= array_header(len as nat));
        }
        write_header(wr, Marker::Array32, array_as_slice(&f))
    }
}

/// Writes the header of a string of `len` bytes, in the smallest tier.
pub fn write_str_len<W: RmpWrite>(wr: &mut W, len: u32) -> (r: Result<(), Error>)
    requires
        old(wr).sink_wf(),
    ensures
        appended(*old(wr), *final(wr), r, str_header(len as nat)),
{
    if len <= 31 {
        let f: [u8; 0] = [];
        proof {
            assert(seq![byte_of_marker(Marker::FixStr(len as u8))] + f@ =~= str_header(len as nat));
        }
        write_header(wr, Marker::FixStr(len as u8), array_as_slice(&f))
    } else if len <= 0xff {
        let f = [len as u8];
        proof {
            assert(seq![byte_of_marker(Marker::Str8)] + f@ =~= str_header(len as nat));
        }
        write_header(wr, Marker::Str8, array_as_slice(&f))
    } else if len <= 0xffff {
        let f = be16(len as u16);
        proof {
            assert(seq![byte_of_marker(Marker::Str16)] + f@ =~= str_header(len as nat));
        }
        write_header(wr, Marker::Str16, array_as_slice(&f))
    } else {
        let f = be32(len);
        proof {
            assert(seq![byte_of_marker(Marker::Str32)] + f@ =~= str_header(len as nat));
        }
        write_header(wr, Marker::Str32, array_as_slice(&f))
    }
}

/// Writes the header of a binary of `len` bytes, in the smallest tier.
pub fn write_bin_len<W: RmpWrite>(wr: &mut W, len: u32) -> (r: Result<(), Error>)
    requires
        old(wr).sink_wf(),
    ensures
        appended(*old(wr), *final(wr), r, bin_header(len as nat)),
{
    if len <= 0xff {
        let f = [len as u8];
        proof {
            assert(seq![byte_of_marker(Marker::Bin8)] + f@ =~= bin_header(len as nat));
        }
        write_header(wr, Marker::Bin8, array_as_slice(&f))
    } else if len <= 0xffff {
        let f = be16(len as u16);
        proof {
            assert(seq![byte_of_marker(Marker::Bin16)] + f@ =~= bin_header(len as nat));
        }
        write_header(wr, Marker::Bin16, array_as_slice(&f))
    } else {
        let f = be32(len);
        proof {
            assert(seq![byte_of_marker(Marker::Bin32)] + f@ =~= bin_header(len as nat));
        }
        write_header(wr, Marker::Bin32, array_as_slice(&f))
    }
}

/// Writes the header of an extension of type `ty` with `len` bytes of data;
/// the data itself follows it.
pub fn write_ext_meta<W: RmpWrite>(wr: &mut W, len: u32, ty: i8) -> (r: Result<(), Error>)
    requires
        old(wr).sink_wf(),
    ensures
        appended(*old(wr), *final(wr), r, ext_header(ty, len as nat)),
{
    let t = ty as u8;
    if len == 1 || len == 2 || len == 4 || len == 8 || len == 16 {
        let m = if len == 1 {
            Marker::FixExt1
        } else if len == 2 {
            Marker::FixExt2
        } else if len == 4 {
            Marker::FixExt4
        } else if len == 8 {
            Marker::FixExt8
        } else {
            Marker::FixExt16
        };
        let f = [t];
        proof {
            assert(seq![byte_of_marker(m)] + f@ =~= ext_header(ty, len as nat));
        }
        write_header(wr, m, array_as_slice(&f))
    } else if len <= 0xff {
        let f = [len as u8, t];
        proof {
            assert(seq![byte_of_marker(Marker::Ext8)] + f@ =~= ext_header(ty, len as nat));
        }
        write_header(wr, Marker::Ext8, array_as_slice(&f))
    } else if len <= 0xffff {
        let b = be16(len as u16);
        let f = [b[0], b[1], t];
        proof {
            assert(seq![byte_of_marker(Marker::Ext16)] + f@ =~= ext_header(ty, len as nat));
        }
        write_header(wr, Marker::Ext16, array_as_slice(&f))
    } else {
        let b = be32(len);
        let f = [b[0], b[1], b[2], b[3], t];
        proof {
            assert(seq![byte_of_marker(Marker::Ext32)] + f@ =~= ext_header(ty, len as nat));
        }
        write_header(wr, Marker::Ext32, array_as_slice(&f))
    }
}

/// An unsigned integer in the smallest encoding that holds it.
pub open spec fn uint_encoding(v: nat) -> Seq<u8> {
    if v <= 0x7f {
        seq![byte_of_marker(Marker::FixPos(v as u8))]
    } else if v <= 0xff {
        seq![byte_of_marker(Marker::U8), v as u8]
    } else if v <= 0xffff {
        seq![byte_of_marker(Marker::U16)] + be16_bytes(v)
    } else if v <= 0xffff_ffff {
        seq![byte_of_marker(Marker::U32)] + be32_bytes(v)
    } else {
        seq![byte_of_marker(Marker::U64)] + be64_bytes(v)
    }
}

/// A signed integer in the smallest encoding that holds it; a value that is
/// not negative is written as an unsigned one.
pub open spec fn sint_encoding(v: i64) -> Seq<u8> {
    if v >= 0 {
        uint_encoding(v as nat)
    } else if v >= -32 {
        seq![byte_of_marker(Marker::FixNeg(v as i8))]
    } else if v >= -0x80 {
        seq![byte_of_marker(Marker::I8), v as u8]
    } else if v >= -0x8000 {
        seq![byte_of_marker(Marker::I16)] + be16_bytes((v as u16) as nat)
    } else if v >= -0x8000_0000 {
        seq![byte_of_marker(Marker::I32)] + be32_bytes((v as u32) as nat)
    } else {
        seq![byte_of_marker(Marker::I64)] + be64_bytes((v as u64) as nat)
    }
}

/// Writes an unsigned integer in the smallest encoding that holds it.
pub fn write_uint<W: RmpWrite>(wr: &mut W, v: u64) -> (r: Result<(), Error>)
    requires
        old(wr).sink_wf(),
    ensures
        appended(*old(wr), *final(wr), r, uint_encoding(v as nat)),
{
    if v <= 0x7f {
        let f: [u8; 0] = [];
        proof {
            assert(seq![byte_of_marker(Marker::FixPos(v as u8))] + f@ =~= uint_encoding(v as nat));
        }
        write_header(wr, Marker::FixPos(v as u8), array_as_slice(&f))
    } else if v <= 0xff {
        let f = [v as u8];
        proof {
            assert(seq![byte_of_marker(Marker::U8)] + f@ =~= uint_encoding(v as nat));
        }
        write_header(wr, Marker::U8, array_as_slice(&f))
    } else if v <= 0xffff {
        let f = be16(v as u16);
        proof {
            assert(seq![byte_of_marker(Marker::U16)] + f@ =~= uint_encoding(v as nat));
        }
        write_header(wr, Marker::U16, array_as_slice(&f))
    } else if v <= 0xffff_ffff {
        let f = be32(v as u32);
        proof {
            assert(seq![byte_of_marker(Marker::U32)] + f@ =~= uint_encoding(v as nat));
        }
        write_header(wr, Marker::U32, array_as_slice(&f))
    } else {
        let f = be64(v);
        proof {
            assert(seq![byte_of_marker(Marker::U64)] + f@ =~= uint_encoding(v as nat));
        }
        write_header(wr, Marker::U64, array_as_slice(&f))
    }
}

/// Writes a signed integer in the smallest encoding that holds it.
pub fn write_sint<W: RmpWrite>(wr: &mut W, v: i64) -> (r: Result<(), Error>)
    requires
        old(wr).sink_wf(),
    ensures
        appended(*old(wr), *final(wr), r, sint_encoding(v)),
{
    if v >= 0 {
        write_uint(wr, v as u64)
    } else if v >= -32 {
        let f: [u8; 0] = [];
        proof {
            assert(seq![byte_of_marker(Marker::FixNeg(v as i8))] + f@ =~= sint_encoding(v));
        }
        write_header(wr, Marker::FixNeg(v as i8), array_as_slice(&f))
    } else if v >= -0x80 {
        let f = [v as u8];
        proof {
            assert(seq![byte_of_marker(Marker::I8)] + f@ =~= sint_encoding(v));
        }
        write_header(wr, Marker::I8, array_as_slice(&f))
    } else if v >= -0x8000 {
        let f = be16(v as u16);
        proof {
            assert(seq![byte_of_marker(Marker::I16)] + f@ =~= sint_encoding(v));
        }
        write_header(wr, Marker::I16, array_as_slice(&f))
    } else if v >= -0x8000_0000 {
        let f = be32(v as u32);
        proof {
            assert(seq![byte_of_marker(Marker::I32)] + f@ =~= sint_encoding(v));
        }
        write_header(wr, Marker::I32, array_as_slice(&f))
    } else {
        let f = be64(v as u64);
        proof {
            assert(seq![byte_of_marker(Marker::I64)] + f@ =~= sint_encoding(v));
        }
        write_header(wr, Marker::I64, array_as_slice(&f))
    }
}

} // verus!
