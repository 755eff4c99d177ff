//! Properties of the codec as a whole, proved over the decoding and encoding
//! specifications.
use vstd::prelude::*;

use crate::bytes::{be2, be4, be8, be_uint};
use crate::encode::{
    array_header, be16_bytes, be32_bytes, be64_bytes, bin_header, ext_header, map_header,
    sint_encoding, str_header, uint_encoding,
};
use crate::errors::Error;
use crate::writer::WriteRequest;
use vstd::string::StringSliceAdditionalSpecFns;
use crate::marker::{byte_of_marker, lemma_marker_byte_marker, marker_of_byte, Marker};
use crate::reader::{
    has_length, is_array, is_bin, is_ext, is_map, is_sized_scalar, is_str, item_count,
    lemma_body_unfold, lemma_container_item, lemma_parse_len,
    lemma_parse_unfold, lemma_skip_step, lemma_skip_len, len_field, len_width, parse, parse_blob,
    parse_body, parse_container, parse_ext, parse_scalar, scalar_event, scalar_width, skip, Event, Parsed,
};

verus! {

/// `s` and `t` both hold at least `n` bytes and agree on the first `n`.
pub open spec fn agree(s: Seq<u8>, t: Seq<u8>, n: nat) -> bool {
    &&& n <= s.len()
    &&& n <= t.len()
    &&& forall|i: int| 0 <= i < n ==> s[i] == t[i]
}

proof fn lemma_agree_shift(s: Seq<u8>, t: Seq<u8>, n: nat, k: nat)
    requires
        agree(s, t, n),
        k <= n,
    ensures
        agree(s.subrange(k as int, s.len() as int), t.subrange(k as int, t.len() as int), (n - k) as nat),
{
    let s2 = s.subrange(k as int, s.len() as int);
    let t2 = t.subrange(k as int, t.len() as int);
    assert forall|i: int| 0 <= i < n - k implies s2[i] == t2[i] by {
        assert(s2[i] == s[i + k]);
        assert(t2[i] == t[i + k]);
    }
}

/// A value decodes the same whatever follows it: only the bytes it takes
/// are read.
pub proof fn lemma_parse_prefix(s: Seq<u8>, t: Seq<u8>)
    requires
        parse(s) is Item,
        agree(s, t, parse(s)->Item_1),
    ensures
        parse(t) == parse(s),
    decreases parse(s)->Item_1, 0nat,
{
    reveal(parse);
    reveal(parse_body);
    lemma_parse_len(s);
    let n = parse(s)->Item_1;
    let m = marker_of_byte(s[0]);
    assert(t[0] == s[0]);
    let s1 = s.subrange(1, s.len() as int);
    let t1 = t.subrange(1, t.len() as int);
    lemma_agree_shift(s, t, n, 1);
    lemma_body_prefix(m, s1, t1);
}

pub proof fn lemma_body_prefix(m: Marker, s: Seq<u8>, t: Seq<u8>)
    requires
        parse_body(m, s) is Item,
        agree(s, t, parse_body(m, s)->Item_1),
    ensures
        parse_body(m, t) == parse_body(m, s),
    decreases parse_body(m, s)->Item_1, 3nat,
{
    reveal(parse);
    reveal(parse_body);
    if is_array(m) || is_map(m) {
        lemma_container_prefix(m, s, t);
    } else if is_sized_scalar(m) {
        lemma_scalar_prefix(m, s, t);
    } else if is_str(m) || is_bin(m) {
        lemma_blob_prefix(m, s, t);
    } else if is_ext(m) {
        lemma_ext_prefix(m, s, t);
    }
}

proof fn lemma_scalar_prefix(m: Marker, s: Seq<u8>, t: Seq<u8>)
    requires
        is_sized_scalar(m),
        parse_scalar(m, s) is Item,
        agree(s, t, parse_scalar(m, s)->Item_1),
    ensures
        parse_scalar(m, t) == parse_scalar(m, s),
{
    let w = scalar_width(m);
    assert(be_uint(t, 0, w) == be_uint(s, 0, w));
}

proof fn lemma_blob_prefix(m: Marker, s: Seq<u8>, t: Seq<u8>)
    requires
        is_str(m) || is_bin(m),
        parse_blob(m, s) is Item,
        agree(s, t, parse_blob(m, s)->Item_1),
    ensures
        parse_blob(m, t) == parse_blob(m, s),
{
    let hw = len_width(m);
    assert(len_field(m, t) == len_field(m, s));
    let k = len_field(m, s);
    assert(t.subrange(hw as int, (hw + k) as int) =~= s.subrange(hw as int, (hw + k) as int));
}

proof fn lemma_ext_prefix(m: Marker, s: Seq<u8>, t: Seq<u8>)
    requires
        is_ext(m),
        parse_ext(m, s) is Item,
        agree(s, t, parse_ext(m, s)->Item_1),
    ensures
        parse_ext(m, t) == parse_ext(m, s),
{
    let hw = len_width(m);
    assert(len_field(m, t) == len_field(m, s));
    let k = len_field(m, s);
    assert(t[hw as int] == s[hw as int]);
    assert(t.subrange((hw + 1) as int, (hw + 1 + k) as int) =~= s.subrange(
        (hw + 1) as int,
        (hw + 1 + k) as int,
    ));
}

pub proof fn lemma_container_prefix(m: Marker, s: Seq<u8>, t: Seq<u8>)
    requires
        is_array(m) || is_map(m),
        parse_container(m, s) is Item,
        agree(s, t, parse_container(m, s)->Item_1),
    ensures
        parse_container(m, t) == parse_container(m, s),
    decreases parse_container(m, s)->Item_1, 2nat,
{
    reveal(parse);
    reveal(parse_body);
    let hw = len_width(m);
    assert(len_field(m, t) == len_field(m, s));
    let c = item_count(m, len_field(m, s));
    let s2 = s.subrange(hw as int, s.len() as int);
    let t2 = t.subrange(hw as int, t.len() as int);
    let len = skip(s2, c)->Ok_0;
    lemma_agree_shift(s, t, parse_container(m, s)->Item_1, hw);
    lemma_skip_prefix(s2, t2, c);
    assert(t.subrange(hw as int, (hw + len) as int) =~= s.subrange(hw as int, (hw + len) as int));
}

pub proof fn lemma_skip_prefix(s: Seq<u8>, t: Seq<u8>, k: nat)
    requires
        skip(s, k) is Ok,
        agree(s, t, skip(s, k)->Ok_0),
    ensures
        skip(t, k) == skip(s, k),
    decreases skip(s, k)->Ok_0, 1nat,
{
    reveal(parse);
    reveal(parse_body);
    if k > 0 {
        let total = skip(s, k)->Ok_0;
        let n1 = parse(s)->Item_1;
        lemma_parse_len(s);
        let s2 = s.subrange(n1 as int, s.len() as int);
        let t2 = t.subrange(n1 as int, t.len() as int);
        lemma_skip_len(s2, (k - 1) as nat);
        assert(agree(s, t, n1));
        lemma_parse_prefix(s, t);
        lemma_agree_shift(s, t, total, n1);
        lemma_skip_prefix(s2, t2, (k - 1) as nat);
    }
}

proof fn lemma_be16_inv(v: nat, s: Seq<u8>, i: int)
    requires
        v < 0x10000,
        0 <= i,
        i + 2 <= s.len(),
        s.subrange(i, i + 2) == be16_bytes(v),
    ensures
        be2(s, i) == v,
{
    assert(s[i] == s.subrange(i, i + 2)[0]);
    assert(s[i + 1] == s.subrange(i, i + 2)[1]);
}

proof fn lemma_be32_inv(v: nat, s: Seq<u8>, i: int)
    requires
        v < 0x1_0000_0000,
        0 <= i,
        i + 4 <= s.len(),
        s.subrange(i, i + 4) == be32_bytes(v),
    ensures
        be4(s, i) == v,
{
    assert(s.subrange(i, i + 2) =~= s.subrange(i, i + 4).subrange(0, 2));
    assert(s.subrange(i + 2, i + 4) =~= s.subrange(i, i + 4).subrange(2, 4));
    assert(be32_bytes(v).subrange(0, 2) =~= be16_bytes(v / 0x10000));
    assert(be32_bytes(v).subrange(2, 4) =~= be16_bytes(v % 0x10000));
    lemma_be16_inv(v / 0x10000, s, i);
    lemma_be16_inv(v % 0x10000, s, i + 2);
}

proof fn lemma_be64_inv(v: nat, s: Seq<u8>, i: int)
    requires
        v < 0x1_0000_0000_0000_0000,
        0 <= i,
        i + 8 <= s.len(),
        s.subrange(i, i + 8) == be64_bytes(v),
    ensures
        be8(s, i) == v,
{
    assert(s.subrange(i, i + 4) =~= s.subrange(i, i + 8).subrange(0, 4));
    assert(s.subrange(i + 4, i + 8) =~= s.subrange(i, i + 8).subrange(4, 8));
    assert(be64_bytes(v).subrange(0, 4) =~= be32_bytes(v / 0x1_0000_0000));
    assert(be64_bytes(v).subrange(4, 8) =~= be32_bytes(v % 0x1_0000_0000));
    lemma_be32_inv(v / 0x1_0000_0000, s, i);
    lemma_be32_inv(v % 0x1_0000_0000, s, i + 4);
}

/// The marker the writer picks for an unsigned integer.
pub open spec fn uint_marker(v: nat) -> Marker {
    if v <= 0x7f {
        Marker::FixPos(v as u8)
    } else if v <= 0xff {
        Marker::U8
    } else if v <= 0xffff {
        Marker::U16
    } else if v <= 0xffff_ffff {
        Marker::U32
    } else {
        Marker::U64
    }
}

/// A marker byte followed by `rest` decodes as the body of that marker.
proof fn lemma_marker_then(m: Marker, rest: Seq<u8>)
    requires
        m.well_formed(),
    ensures
        parse(seq![byte_of_marker(m)] + rest) == match parse_body(m, rest) {
            Parsed::Item(e, n) => Parsed::Item(e, n + 1),
            other => other,
        },
{
    let s = seq![byte_of_marker(m)] + rest;
    lemma_parse_unfold(s);
    lemma_marker_byte_marker(m);
    assert(s.subrange(1, s.len() as int) =~= rest);
}

/// A fixed-width number: marker, then its payload `p`, whatever follows.
proof fn lemma_scalar_then(m: Marker, p: Seq<u8>, tail: Seq<u8>)
    requires
        m.well_formed(),
        is_sized_scalar(m),
        p.len() == scalar_width(m),
    ensures
        parse(seq![byte_of_marker(m)] + p + tail) == Parsed::Item(
            scalar_event(m, be_uint(p, 0, scalar_width(m))),
            1 + p.len(),
        ),
{
    let t = p + tail;
    assert(seq![byte_of_marker(m)] + p + tail =~= seq![byte_of_marker(m)] + t);
    lemma_marker_then(m, t);
    lemma_body_unfold(m, t);
    assert(be_uint(t, 0, scalar_width(m)) == be_uint(p, 0, scalar_width(m)));
}

/// Only the length field itself is read for the length.
proof fn lemma_len_field_then(m: Marker, lb: Seq<u8>, rest: Seq<u8>)
    requires
        has_length(m),
        lb.len() == len_width(m),
    ensures
        len_field(m, lb + rest) == len_field(m, lb),
{
    let t = lb + rest;
    if len_width(m) >= 1 {
        assert(t[0] == lb[0]);
    }
    if len_width(m) >= 2 {
        assert(t[1] == lb[1]);
    }
    if len_width(m) >= 4 {
        assert(t[2] == lb[2]);
        assert(t[3] == lb[3]);
    }
}

/// A string or binary: marker, length field `lb`, then the data.
proof fn lemma_blob_then(m: Marker, lb: Seq<u8>, data: Seq<u8>, tail: Seq<u8>)
    requires
        m.well_formed(),
        is_str(m) || is_bin(m),
        lb.len() == len_width(m),
        len_field(m, lb) == data.len(),
    ensures
        parse(seq![byte_of_marker(m)] + lb + data + tail) == Parsed::Item(
            if is_str(m) {
                Event::Str(m, data)
            } else {
                Event::Bin(m, data)
            },
            1 + lb.len() + data.len(),
        ),
{
    let t = lb + data + tail;
    assert(seq![byte_of_marker(m)] + lb + data + tail =~= seq![byte_of_marker(m)] + t);
    assert(t =~= lb + (data + tail));
    lemma_marker_then(m, t);
    lemma_body_unfold(m, t);
    lemma_len_field_then(m, lb, data + tail);
    assert(t.subrange(lb.len() as int, (lb.len() + data.len()) as int) =~= data);
}

/// An extension: marker, length field `lb`, type id, then the data.
#[verifier::rlimit(40)]
proof fn lemma_ext_then(m: Marker, lb: Seq<u8>, ty: i8, data: Seq<u8>, tail: Seq<u8>)
    requires
        m.well_formed(),
        is_ext(m),
        lb.len() == len_width(m),
        len_field(m, lb) == data.len(),
    ensures
        parse(seq![byte_of_marker(m)] + lb + seq![ty as u8] + data + tail) == Parsed::Item(
            Event::Ext(m, ty, data),
            2 + lb.len() + data.len(),
        ),
{
    let t = lb + seq![ty as u8] + data + tail;
    assert(seq![byte_of_marker(m)] + lb + seq![ty as u8] + data + tail =~= seq![byte_of_marker(m)]
        + t);
    assert(t =~= lb + (seq![ty as u8] + data + tail));
    lemma_marker_then(m, t);
    lemma_body_unfold(m, t);
    lemma_len_field_then(m, lb, seq![ty as u8] + data + tail);
    assert(t[lb.len() as int] == ty as u8);
    lemma_type_id_bits(ty);
    assert(t.subrange((lb.len() + 1) as int, (lb.len() + 1 + data.len()) as int) =~= data);
}

/// An array or map: marker, count field `lb`, then complete values.
proof fn lemma_container_then(m: Marker, lb: Seq<u8>, e: Seq<Seq<u8>>, tail: Seq<u8>)
    requires
        m.well_formed(),
        is_array(m) || is_map(m),
        lb.len() == len_width(m),
        complete_values(e),
        item_count(m, len_field(m, lb)) == e.len(),
    ensures
        parse(seq![byte_of_marker(m)] + lb + flatten(e) + tail) == Parsed::Item(
            if is_map(m) {
                Event::MapEntries(m, len_field(m, lb) as u32, flatten(e))
            } else {
                Event::Array(m, len_field(m, lb) as u32, flatten(e))
            },
            1 + lb.len() + flatten(e).len(),
        ),
{
    let body = flatten(e);
    let t = lb + body + tail;
    assert(seq![byte_of_marker(m)] + lb + body + tail =~= seq![byte_of_marker(m)] + t);
    assert(t =~= lb + (body + tail));
    lemma_marker_then(m, t);
    lemma_body_unfold(m, t);
    lemma_len_field_then(m, lb, body + tail);
    assert(t.subrange(lb.len() as int, t.len() as int) =~= body + tail);
    lemma_skip_flatten(e, tail);
    assert(t.subrange(lb.len() as int, (lb.len() + body.len()) as int) =~= body);
    lemma_container_item(m, t, body.len());
}

proof fn lemma_be16_self(v: nat)
    requires
        v < 0x10000,
    ensures
        be2(be16_bytes(v), 0) == v,
{
    assert(be16_bytes(v).subrange(0, 2) =~= be16_bytes(v));
    lemma_be16_inv(v, be16_bytes(v), 0);
}

proof fn lemma_be32_self(v: nat)
    requires
        v < 0x1_0000_0000,
    ensures
        be4(be32_bytes(v), 0) == v,
{
    assert(be32_bytes(v).subrange(0, 4) =~= be32_bytes(v));
    lemma_be32_inv(v, be32_bytes(v), 0);
}

proof fn lemma_be64_self(v: nat)
    requires
        v < 0x1_0000_0000_0000_0000,
    ensures
        be8(be64_bytes(v), 0) == v,
{
    assert(be64_bytes(v).subrange(0, 8) =~= be64_bytes(v));
    lemma_be64_inv(v, be64_bytes(v), 0);
}

/// An unsigned integer decodes back to its value, whatever follows it.
pub proof fn lemma_uint_round_trip(v: u64, tail: Seq<u8>)
    ensures
        parse(uint_encoding(v as nat) + tail) == Parsed::Item(
            Event::UInt(uint_marker(v as nat), v),
            uint_encoding(v as nat).len(),
        ),
{
    let m = uint_marker(v as nat);
    let enc = uint_encoding(v as nat);
    if v <= 0x7f {
        lemma_marker_then(m, tail);
        lemma_body_unfold(m, tail);
    } else {
        let p = enc.subrange(1, enc.len() as int);
        assert(enc =~= seq![byte_of_marker(m)] + p);
        lemma_scalar_then(m, p, tail);
        if v <= 0xff {
        } else if v <= 0xffff {
            lemma_be16_self(v as nat);
        } else if v <= 0xffff_ffff {
            lemma_be32_self(v as nat);
        } else {
            lemma_be64_self(v as nat);
        }
    }
}

proof fn lemma_i8_bits(v: i64)
    requires
        -0x80 <= v < 0,
    ensures
        ((v as u8) as i8) as i64 == v,
{
    assert(((v as u8) as i8) as i64 == v) by (bit_vector)
        requires
            -0x80 <= v < 0,
    ;
}

proof fn lemma_i16_bits(v: i64)
    requires
        -0x8000 <= v < 0,
    ensures
        ((v as u16) as i16) as i64 == v,
{
    assert(((v as u16) as i16) as i64 == v) by (bit_vector)
        requires
            -0x8000 <= v < 0,
    ;
}

proof fn lemma_i32_bits(v: i64)
    requires
        -0x8000_0000 <= v < 0,
    ensures
        ((v as u32) as i32) as i64 == v,
{
    assert(((v as u32) as i32) as i64 == v) by (bit_vector)
        requires
            -0x8000_0000 <= v < 0,
    ;
}

proof fn lemma_i64_bits(v: i64)
    ensures
        (v as u64) as i64 == v,
{
    assert((v as u64) as i64 == v) by (bit_vector);
}

proof fn lemma_type_id_bits(ty: i8)
    ensures
        (ty as u8) as i8 == ty,
{
    assert((ty as u8) as i8 == ty) by (bit_vector);
}

/// The marker the writer picks for a signed integer.
pub open spec fn sint_marker(v: i64) -> Marker {
    if v >= 0 {
        uint_marker(v as nat)
    } else if v >= -32 {
        Marker::FixNeg(v as i8)
    } else if v >= -0x80 {
        Marker::I8
    } else if v >= -0x8000 {
        Marker::I16
    } else if v >= -0x8000_0000 {
        Marker::I32
    } else {
        Marker::I64
    }
}

/// What a signed integer decodes to: an unsigned value where it is not
/// negative.
pub open spec fn sint_event(v: i64) -> Event {
    if v >= 0 {
        Event::UInt(uint_marker(v as nat), v as u64)
    } else {
        Event::IInt(sint_marker(v), v)
    }
}

/// A signed integer decodes back to its value, whatever follows it.
pub proof fn lemma_sint_round_trip(v: i64, tail: Seq<u8>)
    ensures
        parse(sint_encoding(v) + tail) == Parsed::Item(sint_event(v), sint_encoding(v).len()),
{
    if v >= 0 {
        lemma_uint_round_trip(v as u64, tail);
    } else {
        let m = sint_marker(v);
        let enc = sint_encoding(v);
        if v >= -32 {
            lemma_marker_then(m, tail);
            lemma_body_unfold(m, tail);
        } else {
            let p = enc.subrange(1, enc.len() as int);
            assert(enc =~= seq![byte_of_marker(m)] + p);
            lemma_scalar_then(m, p, tail);
            if v >= -0x80 {
                lemma_i8_bits(v);
            } else if v >= -0x8000 {
                lemma_be16_self((v as u16) as nat);
                lemma_i16_bits(v);
            } else if v >= -0x8000_0000 {
                lemma_be32_self((v as u32) as nat);
                lemma_i32_bits(v);
            } else {
                lemma_be64_self((v as u64) as nat);
                lemma_i64_bits(v);
            }
        }
    }
}

/// The marker the writer picks for a string of `n` bytes.
pub open spec fn str_marker(n: nat) -> Marker {
    if n <= 31 {
        Marker::FixStr(n as u8)
    } else if n <= 0xff {
        Marker::Str8
    } else if n <= 0xffff {
        Marker::Str16
    } else {
        Marker::Str32
    }
}

/// The marker the writer picks for a binary of `n` bytes.
pub open spec fn bin_marker(n: nat) -> Marker {
    if n <= 0xff {
        Marker::Bin8
    } else if n <= 0xffff {
        Marker::Bin16
    } else {
        Marker::Bin32
    }
}

/// A string decodes back to its bytes, whatever follows it, valid UTF-8 or
/// not.
pub proof fn lemma_str_round_trip(data: Seq<u8>, tail: Seq<u8>)
    requires
        data.len() <= u32::MAX,
    ensures
        parse(str_header(data.len()) + data + tail) == Parsed::Item(
            Event::Str(str_marker(data.len()), data),
            str_header(data.len()).len() + data.len(),
        ),
{
    let n = data.len();
    let m = str_marker(n);
    let h = str_header(n);
    let lb = h.subrange(1, (1 + len_width(m)) as int);
    if n <= 0xff {
        assert(len_field(m, lb) == n);
    } else if n <= 0xffff {
        assert(lb =~= be16_bytes(n));
        lemma_be16_self(n);
    } else {
        assert(lb =~= be32_bytes(n));
        lemma_be32_self(n);
    }
    assert(h =~= seq![byte_of_marker(m)] + lb);
    lemma_blob_then(m, lb, data, tail);
}

/// A binary decodes back to its bytes, whatever follows it.
pub proof fn lemma_bin_round_trip(data: Seq<u8>, tail: Seq<u8>)
    requires
        data.len() <= u32::MAX,
    ensures
        parse(bin_header(data.len()) + data + tail) == Parsed::Item(
            Event::Bin(bin_marker(data.len()), data),
            bin_header(data.len()).len() + data.len(),
        ),
{
    let n = data.len();
    let m = bin_marker(n);
    let h = bin_header(n);
    let lb = h.subrange(1, (1 + len_width(m)) as int);
    if n <= 0xff {
        assert(len_field(m, lb) == n);
    } else if n <= 0xffff {
        assert(lb =~= be16_bytes(n));
        lemma_be16_self(n);
    } else {
        assert(lb =~= be32_bytes(n));
        lemma_be32_self(n);
    }
    assert(h =~= seq![byte_of_marker(m)] + lb);
    lemma_blob_then(m, lb, data, tail);
}

/// The marker the writer picks for an extension with `n` bytes of data.
pub open spec fn ext_marker(n: nat) -> Marker {
    if n == 1 {
        Marker::FixExt1
    } else if n == 2 {
        Marker::FixExt2
    } else if n == 4 {
        Marker::FixExt4
    } else if n == 8 {
        Marker::FixExt8
    } else if n == 16 {
        Marker::FixExt16
    } else if n <= 0xff {
        Marker::Ext8
    } else if n <= 0xffff {
        Marker::Ext16
    } else {
        Marker::Ext32
    }
}

/// An extension decodes back to its type id and data, whatever follows it.
pub proof fn lemma_ext_round_trip(ty: i8, data: Seq<u8>, tail: Seq<u8>)
    requires
        data.len() <= u32::MAX,
    ensures
        parse(ext_header(ty, data.len()) + data + tail) == Parsed::Item(
            Event::Ext(ext_marker(data.len()), ty, data),
            ext_header(ty, data.len()).len() + data.len(),
        ),
{
    let n = data.len();
    let m = ext_marker(n);
    let h = ext_header(ty, n);
    let lb = h.subrange(1, (1 + len_width(m)) as int);
    if n <= 0xff {
        assert(len_field(m, lb) == n);
    } else if n <= 0xffff {
        assert(lb =~= be16_bytes(n));
        lemma_be16_self(n);
    } else {
        assert(lb =~= be32_bytes(n));
        lemma_be32_self(n);
    }
    assert(h =~= seq![byte_of_marker(m)] + lb + seq![ty as u8]);
    lemma_ext_then(m, lb, ty, data, tail);
}

/// Encoded values laid end to end.
pub open spec fn flatten(e: Seq<Seq<u8>>) -> Seq<u8>
    decreases e.len(),
{
    if e.len() == 0 {
        Seq::empty()
    } else {
        e[0] + flatten(e.drop_first())
    }
}

/// Each sequence is exactly the encoding of one value.
pub open spec fn complete_values(e: Seq<Seq<u8>>) -> bool {
    forall|i: int|
        0 <= i < e.len() ==> (#[trigger] parse(e[i])) is Item && parse(e[i])->Item_1 == e[i].len()
}

/// Complete values laid end to end measure their total length, whatever
/// follows them.
pub proof fn lemma_skip_flatten(e: Seq<Seq<u8>>, tail: Seq<u8>)
    requires
        complete_values(e),
    ensures
        skip(flatten(e) + tail, e.len()) == Ok::<nat, Error>(flatten(e).len()),
    decreases e.len(),
{
    if e.len() == 0 {
        lemma_skip_step(flatten(e) + tail, 0);
    }
    if e.len() > 0 {
        let rest = e.drop_first();
        let s = flatten(e) + tail;
        lemma_skip_step(s, e.len());
        assert(s =~= e[0] + (flatten(rest) + tail));
        assert(parse(e[0]) is Item);
        assert(agree(e[0], s, e[0].len()));
        lemma_parse_prefix(e[0], s);
        lemma_parse_len(e[0]);
        assert(s.subrange(e[0].len() as int, s.len() as int) =~= flatten(rest) + tail);
        assert forall|i: int| 0 <= i < rest.len() implies (#[trigger] parse(rest[i])) is Item
            && parse(rest[i])->Item_1 == rest[i].len() by {
            assert(rest[i] == e[i + 1]);
        }
        lemma_skip_flatten(rest, tail);
    }
}

/// The marker the writer picks for an array of `n` elements.
pub open spec fn array_marker(n: nat) -> Marker {
    if n <= 15 {
        Marker::FixArray(n as u8)
    } else if n <= 0xffff {
        Marker::Array16
    } else {
        Marker::Array32
    }
}

/// The marker the writer picks for a map of `n` pairs.
pub open spec fn map_marker(n: nat) -> Marker {
    if n <= 15 {
        Marker::FixMap(n as u8)
    } else if n <= 0xffff {
        Marker::Map16
    } else {
        Marker::Map32
    }
}

/// An array header followed by the encodings of its elements decodes to the
/// count and the elements' bytes as its span, whatever follows.
pub proof fn lemma_array_round_trip(e: Seq<Seq<u8>>, tail: Seq<u8>)
    requires
        complete_values(e),
        e.len() <= u32::MAX,
    ensures
        parse(array_header(e.len()) + flatten(e) + tail) == Parsed::Item(
            Event::Array(array_marker(e.len()), e.len() as u32, flatten(e)),
            array_header(e.len()).len() + flatten(e).len(),
        ),
{
    let n = e.len();
    let m = array_marker(n);
    let h = array_header(n);
    let lb = h.subrange(1, h.len() as int);
    if n <= 15 {
    } else if n <= 0xffff {
        assert(lb =~= be16_bytes(n));
        lemma_be16_self(n);
    } else {
        assert(lb =~= be32_bytes(n));
        lemma_be32_self(n);
    }
    assert(h =~= seq![byte_of_marker(m)] + lb);
    lemma_container_then(m, lb, e, tail);
}

/// A map header followed by the encodings of its keys and values, in turn,
/// decodes to the pair count and those bytes as its span, whatever follows.
pub proof fn lemma_map_round_trip(e: Seq<Seq<u8>>, tail: Seq<u8>)
    requires
        complete_values(e),
        e.len() % 2 == 0,
        e.len() / 2 <= u32::MAX,
    ensures
        parse(map_header(e.len() / 2) + flatten(e) + tail) == Parsed::Item(
            Event::MapEntries(map_marker(e.len() / 2), (e.len() / 2) as u32, flatten(e)),
            map_header(e.len() / 2).len() + flatten(e).len(),
        ),
{
    let n = e.len() / 2;
    let m = map_marker(n);
    let h = map_header(n);
    let lb = h.subrange(1, h.len() as int);
    if n <= 15 {
    } else if n <= 0xffff {
        assert(lb =~= be16_bytes(n));
        lemma_be16_self(n);
    } else {
        assert(lb =~= be32_bytes(n));
        lemma_be32_self(n);
    }
    assert(h =~= seq![byte_of_marker(m)] + lb);
    lemma_container_then(m, lb, e, tail);
}

/// What decoding the encoding of a request gives.
pub open spec fn request_event<'a>(req: WriteRequest<'a>) -> Event {
    match req {
        WriteRequest::Null => Event::Nil(Marker::Null),
        WriteRequest::Bool(b) => Event::Bool(
            if b {
                Marker::True
            } else {
                Marker::False
            },
            b,
        ),
        WriteRequest::U8(v) => Event::UInt(uint_marker(v as nat), v as u64),
        WriteRequest::U16(v) => Event::UInt(uint_marker(v as nat), v as u64),
        WriteRequest::U32(v) => Event::UInt(uint_marker(v as nat), v as u64),
        WriteRequest::U64(v) => Event::UInt(uint_marker(v as nat), v),
        WriteRequest::I8(v) => sint_event(v as i64),
        WriteRequest::I16(v) => sint_event(v as i64),
        WriteRequest::I32(v) => sint_event(v as i64),
        WriteRequest::I64(v) => sint_event(v),
        WriteRequest::F32(bits) => Event::F32(Marker::F32, bits),
        WriteRequest::F64(bits) => Event::F64(Marker::F64, bits),
        WriteRequest::Str(s) => Event::Str(str_marker(s.spec_bytes().len()), s.spec_bytes()),
        WriteRequest::Bin(b) => Event::Bin(bin_marker(b@.len()), b@),
        WriteRequest::Array(n) => Event::Array(array_marker(n as nat), n, Seq::empty()),
        WriteRequest::MapEntries(n) => Event::MapEntries(map_marker(n as nat), n, Seq::empty()),
        WriteRequest::Ext(ty, n) => Event::Ext(ext_marker(n as nat), ty, Seq::empty()),
    }
}

/// A request for a whole value, not just a container's or extension's header.
pub open spec fn is_whole_value<'a>(req: WriteRequest<'a>) -> bool {
    !(req is Array || req is MapEntries || req is Ext)
}

/// Decoding what a request wrote gives back its value, with the
/// marker the writer picked, and takes exactly the bytes written, whatever
/// follows them. (Arrays, maps and extensions with their contents are the
/// laws `lemma_array_round_trip`, `lemma_map_round_trip` and
/// `lemma_ext_round_trip`.)
pub proof fn lemma_request_round_trip<'a>(req: WriteRequest<'a>, tail: Seq<u8>)
    requires
        req.encodable(),
        is_whole_value(req),
    ensures
        parse(req.encoding() + tail) == Parsed::Item(request_event(req), req.encoding().len()),
{
    reveal(WriteRequest::encoding);
    match req {
        WriteRequest::Null | WriteRequest::Bool(_) => {
            let m = if req is Null {
                Marker::Null
            } else if req->Bool_0 {
                Marker::True
            } else {
                Marker::False
            };
            lemma_marker_then(m, tail);
            lemma_body_unfold(m, tail);
        },
        WriteRequest::U8(v) => lemma_uint_round_trip(v as u64, tail),
        WriteRequest::U16(v) => lemma_uint_round_trip(v as u64, tail),
        WriteRequest::U32(v) => lemma_uint_round_trip(v as u64, tail),
        WriteRequest::U64(v) => lemma_uint_round_trip(v, tail),
        WriteRequest::I8(v) => lemma_sint_round_trip(v as i64, tail),
        WriteRequest::I16(v) => lemma_sint_round_trip(v as i64, tail),
        WriteRequest::I32(v) => lemma_sint_round_trip(v as i64, tail),
        WriteRequest::I64(v) => lemma_sint_round_trip(v, tail),
        WriteRequest::F32(bits) => {
            lemma_scalar_then(Marker::F32, be32_bytes(bits as nat), tail);
            lemma_be32_self(bits as nat);
        },
        WriteRequest::F64(bits) => {
            lemma_scalar_then(Marker::F64, be64_bytes(bits as nat), tail);
            lemma_be64_self(bits as nat);
        },
        WriteRequest::Str(st) => lemma_str_round_trip(st.spec_bytes(), tail),
        WriteRequest::Bin(b) => lemma_bin_round_trip(b@, tail),
        _ => {},
    }
}

/// The values of `s`, `k` of them, each decoded where the previous ended.
pub open spec fn values(s: Seq<u8>, k: nat) -> Seq<Event>
    decreases k,
{
    if k == 0 {
        Seq::empty()
    } else {
        match parse(s) {
            Parsed::Item(e, n) => seq![e] + values(s.subrange(n as int, s.len() as int), (k - 1) as nat),
            _ => Seq::empty(),
        }
    }
}

/// Values decoded from bytes that agree over what they take are the same.
pub proof fn lemma_values_prefix(s: Seq<u8>, t: Seq<u8>, k: nat)
    requires
        skip(s, k) is Ok,
        agree(s, t, skip(s, k)->Ok_0),
    ensures
        values(t, k) == values(s, k),
    decreases k,
{
    lemma_skip_step(s, k);
    if k > 0 {
        let total = skip(s, k)->Ok_0;
        let n1 = parse(s)->Item_1;
        let s2 = s.subrange(n1 as int, s.len() as int);
        let t2 = t.subrange(n1 as int, t.len() as int);
        lemma_skip_len(s2, (k - 1) as nat);
        assert(agree(s, t, n1));
        lemma_parse_prefix(s, t);
        lemma_agree_shift(s, t, total, n1);
        lemma_values_prefix(s2, t2, (k - 1) as nat);
    }
}

/// The marker, value count and span of a container event.
pub open spec fn container_parts(e: Event) -> (Marker, nat, Seq<u8>) {
    match e {
        Event::Array(m, k, span) => (m, k as nat, span),
        Event::MapEntries(m, k, span) => (m, 2 * k as nat, span),
        _ => (Marker::Reserved, 0, Seq::empty()),
    }
}

/// The span of a decoded array or map is exactly its values
/// laid end to end, so its length is the sum of theirs, and decoding the
/// span alone gives the same values as decoding them in place after the
/// header.
pub proof fn lemma_container_span(s: Seq<u8>)
    requires
        parse(s) is Item,
        parse(s)->Item_0 is Array || parse(s)->Item_0 is MapEntries,
    ensures
        ({
            let (m, c, span) = container_parts(parse(s)->Item_0);
            let inner = s.subrange((1 + len_width(m)) as int, s.len() as int);
            &&& span == s.subrange((1 + len_width(m)) as int, (1 + len_width(m) + span.len()) as int)
            &&& skip(span, c) == Ok::<nat, Error>(span.len())
            &&& values(span, c) == values(inner, c)
        }),
{
    reveal(parse);
    reveal(parse_body);
    let m = marker_of_byte(s[0]);
    let t = s.subrange(1, s.len() as int);
    let hw = len_width(m);
    assert(is_array(m) || is_map(m));
    let c = item_count(m, len_field(m, t));
    let t2 = t.subrange(hw as int, t.len() as int);
    let len = skip(t2, c)->Ok_0;
    lemma_skip_len(t2, c);
    let span = t2.subrange(0, len as int);
    assert(t2 =~= s.subrange((1 + hw) as int, s.len() as int));
    assert(span =~= s.subrange((1 + hw) as int, (1 + hw + len) as int));
    assert(container_parts(parse(s)->Item_0) == (m, c, span));
    assert(agree(t2, span, len));
    lemma_skip_prefix(t2, span, c);
    lemma_values_prefix(t2, span, c);
}

/// Whether a header tier can hold the length or count `l`; a fixed
/// extension size holds exactly its size.
pub open spec fn tier_holds(m: Marker, l: nat) -> bool {
    match m {
        Marker::FixMap(_) | Marker::FixArray(_) => l <= 15,
        Marker::FixStr(_) => l <= 31,
        Marker::Str8 | Marker::Bin8 | Marker::Ext8 => l <= 0xff,
        Marker::Str16 | Marker::Bin16 | Marker::Ext16 | Marker::Array16 | Marker::Map16 => l <= 0xffff,
        Marker::Str32 | Marker::Bin32 | Marker::Ext32 | Marker::Array32 | Marker::Map32 => l
            <= 0xffff_ffff,
        Marker::FixExt1 => l == 1,
        Marker::FixExt2 => l == 2,
        Marker::FixExt4 => l == 4,
        Marker::FixExt8 => l == 8,
        Marker::FixExt16 => l == 16,
        _ => false,
    }
}

/// Every header the writer emits starts with a marker whose
/// tier holds the length, and no tier of the same kind that holds the
/// length has a shorter length field.
pub proof fn lemma_minimal_tier(l: nat, other: Marker)
    requires
        l <= u32::MAX,
    ensures
        map_header(l)[0] == byte_of_marker(map_marker(l)),
        map_header(l).len() == 1 + len_width(map_marker(l)),
        tier_holds(map_marker(l), l),
        is_map(other) && tier_holds(other, l) ==> len_width(map_marker(l)) <= len_width(other),
        array_header(l)[0] == byte_of_marker(array_marker(l)),
        array_header(l).len() == 1 + len_width(array_marker(l)),
        tier_holds(array_marker(l), l),
        is_array(other) && tier_holds(other, l) ==> len_width(array_marker(l)) <= len_width(
            other,
        ),
        str_header(l)[0] == byte_of_marker(str_marker(l)),
        str_header(l).len() == 1 + len_width(str_marker(l)),
        tier_holds(str_marker(l), l),
        is_str(other) && tier_holds(other, l) ==> len_width(str_marker(l)) <= len_width(other),
        bin_header(l)[0] == byte_of_marker(bin_marker(l)),
        bin_header(l).len() == 1 + len_width(bin_marker(l)),
        tier_holds(bin_marker(l), l),
        is_bin(other) && tier_holds(other, l) ==> len_width(bin_marker(l)) <= len_width(other),
{
}

/// An extension header has a fixed size where one matches, else the
/// shortest length field that holds the length.
pub proof fn lemma_minimal_ext_tier(ty: i8, l: nat, other: Marker)
    requires
        l <= u32::MAX,
    ensures
        ext_header(ty, l)[0] == byte_of_marker(ext_marker(l)),
        ext_header(ty, l).len() == 2 + len_width(ext_marker(l)),
        tier_holds(ext_marker(l), l),
        is_ext(other) && tier_holds(other, l) ==> len_width(ext_marker(l)) <= len_width(other),
{
}

/// A marker that announces payload bytes after it.
pub open spec fn needs_payload(m: Marker) -> bool {
    ||| is_sized_scalar(m)
    ||| is_ext(m)
    ||| len_width(m) > 0
    ||| (m is FixStr && m->FixStr_0 > 0)
    ||| (m is FixArray && m->FixArray_0 > 0)
    ||| (m is FixMap && m->FixMap_0 > 0)
}

/// An empty input holds no value, which is not an
/// error; a lone marker that announces payload is a shortfall error.
pub proof fn lemma_shortfall(b: u8)
    ensures
        parse(Seq::empty()) is End,
        needs_payload(marker_of_byte(b)) ==> parse(seq![b]) == Parsed::Fail(Error::InsufficientBytes),
{
    reveal(parse);
    reveal(parse_body);
    let m = marker_of_byte(b);
    let t = seq![b].subrange(1, 1);
    assert(t =~= Seq::<u8>::empty());
    if (is_array(m) || is_map(m)) && len_width(m) == 0 {
        let c = item_count(m, len_field(m, t));
        assert(t.subrange(0, 0) =~= t);
        lemma_skip_step(t, c);
        assert(parse(t) is End);
        if needs_payload(m) {
            assert(c > 0);
            assert(skip(t.subrange(0, 0), c) == Err::<nat, Error>(Error::InsufficientBytes));
        }
    }
}

} // verus!
