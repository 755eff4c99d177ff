//! The zero-copy event decoder and the lazy iterator over a map's pairs.
use vstd::prelude::*;
use vstd::string::StringSliceAdditionalSpecFns;
use vstd::utf8::valid_utf8;

use crate::bytes::{be_uint, lemma_be2_bound, lemma_be4_bound, Bytes};
use crate::errors::Error;
use crate::marker::{marker_of_byte, Marker};

verus! {

#[verifier::external_type_specification]
#[verifier::external_body]
pub struct ExUtf8Error(core::str::Utf8Error);

/// Relies on `core::str::from_utf8`: it succeeds exactly on valid UTF-8, and
/// the text it returns is made of the same bytes.
#[verifier::external_body]
fn str_from_utf8<'a>(b: &'a [u8]) -> (r: Result<&'a str, core::str::Utf8Error>)
    ensures
        r is Ok <==> valid_utf8(b@),
        r is Ok ==> r->Ok_0.spec_bytes() == b@,
{
    core::str::from_utf8(b)
}

/// What one decoded value is, with its payload as plain bytes. Floats are
/// carried as their IEEE-754 bits.
pub enum Event {
    Nil(Marker),
    Bool(Marker, bool),
    UInt(Marker, u64),
    IInt(Marker, i64),
    F32(Marker, u32),
    F64(Marker, u64),
    Str(Marker, Seq<u8>),
    Bin(Marker, Seq<u8>),
    /// The element count and the raw bytes of all elements.
    Array(Marker, u32, Seq<u8>),
    /// The pair count and the raw bytes of all keys and values.
    MapEntries(Marker, u32, Seq<u8>),
    Ext(Marker, i8, Seq<u8>),
}

/// The outcome of decoding one value from the front of a byte sequence.
pub enum Parsed {
    /// The input is empty: no value starts here.
    End,
    /// A value starts here but is malformed or cut short.
    Fail(Error),
    /// A value and the number of bytes it takes.
    Item(Event, nat),
}

/// The size of a fixed-width numeric payload.
pub open spec fn scalar_width(m: Marker) -> nat {
    match m {
        Marker::U8 | Marker::I8 => 1,
        Marker::U16 | Marker::I16 => 2,
        Marker::U32 | Marker::I32 | Marker::F32 => 4,
        _ => 8,
    }
}

pub open spec fn is_sized_scalar(m: Marker) -> bool {
    match m {
        Marker::U8 | Marker::U16 | Marker::U32 | Marker::U64 | Marker::I8 | Marker::I16
        | Marker::I32 | Marker::I64 | Marker::F32 | Marker::F64 => true,
        _ => false,
    }
}

pub open spec fn is_str(m: Marker) -> bool {
    m is FixStr || m is Str8 || m is Str16 || m is Str32
}

pub open spec fn is_bin(m: Marker) -> bool {
    m is Bin8 || m is Bin16 || m is Bin32
}

pub open spec fn is_ext(m: Marker) -> bool {
    m is FixExt1 || m is FixExt2 || m is FixExt4 || m is FixExt8 || m is FixExt16 || m is Ext8
        || m is Ext16 || m is Ext32
}

pub open spec fn is_array(m: Marker) -> bool {
    m is FixArray || m is Array16 || m is Array32
}

pub open spec fn is_map(m: Marker) -> bool {
    m is FixMap || m is Map16 || m is Map32
}

/// Markers followed by a length or count, embedded or explicit.
pub open spec fn has_length(m: Marker) -> bool {
    is_str(m) || is_bin(m) || is_ext(m) || is_array(m) || is_map(m)
}

/// The size of the explicit length field after the marker.
pub open spec fn len_width(m: Marker) -> nat {
    match m {
        Marker::Str8 | Marker::Bin8 | Marker::Ext8 => 1,
        Marker::Str16 | Marker::Bin16 | Marker::Ext16 | Marker::Array16 | Marker::Map16 => 2,
        Marker::Str32 | Marker::Bin32 | Marker::Ext32 | Marker::Array32 | Marker::Map32 => 4,
        _ => 0,
    }
}

/// The length or count a marker announces; `t` holds the bytes after it.
pub open spec fn len_field(m: Marker, t: Seq<u8>) -> nat {
    match m {
        Marker::FixStr(n) => n as nat,
        Marker::FixArray(n) => n as nat,
        Marker::FixMap(n) => n as nat,
        Marker::FixExt1 => 1,
        Marker::FixExt2 => 2,
        Marker::FixExt4 => 4,
        Marker::FixExt8 => 8,
        Marker::FixExt16 => 16,
        _ => be_uint(t, 0, len_width(m)),
    }
}

/// The event of a fixed-width numeric value whose payload reads as `v`.
pub open spec fn scalar_event(m: Marker, v: nat) -> Event {
    match m {
        Marker::I8 => Event::IInt(m, (v as i8) as i64),
        Marker::I16 => Event::IInt(m, (v as i16) as i64),
        Marker::I32 => Event::IInt(m, (v as i32) as i64),
        Marker::I64 => Event::IInt(m, v as i64),
        Marker::F32 => Event::F32(m, v as u32),
        Marker::F64 => Event::F64(m, v as u64),
        _ => Event::UInt(m, v as u64),
    }
}

/// How many values a container holds: its count, twice over for a map.
pub open spec fn item_count(m: Marker, k: nat) -> nat {
    if is_map(m) {
        2 * k
    } else {
        k
    }
}

/// Decodes one value from the front of `s`.
#[verifier::opaque]
pub open spec fn parse(s: Seq<u8>) -> Parsed
    decreases s.len(), 0nat,
{
    if s.len() == 0 {
        Parsed::End
    } else {
        match parse_body(marker_of_byte(s[0]), s.subrange(1, s.len() as int)) {
            Parsed::Item(e, n) => Parsed::Item(e, n + 1),
            other => other,
        }
    }
}

/// Decodes what follows the marker `m`; `t` holds the bytes after the marker
/// and the count of an item is of bytes of `t`.
#[verifier::opaque]
pub open spec fn parse_body(m: Marker, t: Seq<u8>) -> Parsed
    decreases t.len(), 3nat,
{
    match m {
        Marker::Reserved => Parsed::Fail(Error::InvalidMarker),
        Marker::Null => Parsed::Item(Event::Nil(m), 0),
        Marker::True => Parsed::Item(Event::Bool(m, true), 0),
        Marker::False => Parsed::Item(Event::Bool(m, false), 0),
        Marker::FixPos(v) => Parsed::Item(Event::UInt(m, v as u64), 0),
        Marker::FixNeg(v) => Parsed::Item(Event::IInt(m, v as i64), 0),
        _ => {
            if is_sized_scalar(m) {
                parse_scalar(m, t)
            } else if is_str(m) || is_bin(m) {
                parse_blob(m, t)
            } else if is_ext(m) {
                parse_ext(m, t)
            } else {
                parse_container(m, t)
            }
        },
    }
}

/// A fixed-width number after its marker.
pub open spec fn parse_scalar(m: Marker, t: Seq<u8>) -> Parsed {
    let w = scalar_width(m);
    if t.len() < w {
        Parsed::Fail(Error::InsufficientBytes)
    } else {
        Parsed::Item(scalar_event(m, be_uint(t, 0, w)), w)
    }
}

/// A string or binary payload after its marker: a length, then the bytes.
pub open spec fn parse_blob(m: Marker, t: Seq<u8>) -> Parsed {
    let hw = len_width(m);
    let n = len_field(m, t);
    if t.len() < hw + n {
        Parsed::Fail(Error::InsufficientBytes)
    } else {
        let data = t.subrange(hw as int, (hw + n) as int);
        Parsed::Item(
            if is_str(m) {
                Event::Str(m, data)
            } else {
                Event::Bin(m, data)
            },
            hw + n,
        )
    }
}

/// An extension after its marker: a length, a type id, then the bytes.
pub open spec fn parse_ext(m: Marker, t: Seq<u8>) -> Parsed {
    let hw = len_width(m);
    let n = len_field(m, t);
    if t.len() < hw + 1 + n {
        Parsed::Fail(Error::InsufficientBytes)
    } else {
        Parsed::Item(
            Event::Ext(m, t[hw as int] as i8, t.subrange((hw + 1) as int, (hw + 1 + n) as int)),
            hw + 1 + n,
        )
    }
}

/// An array or map after its marker: a count, then as many values (twice as
/// many for a map), which make up the span.
pub open spec fn parse_container(m: Marker, t: Seq<u8>) -> Parsed
    decreases t.len(), 2nat,
{
    let hw = len_width(m);
    let n = len_field(m, t);
    if t.len() < hw {
        Parsed::Fail(Error::InsufficientBytes)
    } else {
        match skip(t.subrange(hw as int, t.len() as int), item_count(m, n)) {
            Err(e) => Parsed::Fail(e),
            Ok(len) => {
                let span = t.subrange(hw as int, (hw + len) as int);
                Parsed::Item(
                    if is_map(m) {
                        Event::MapEntries(m, n as u32, span)
                    } else {
                        Event::Array(m, n as u32, span)
                    },
                    hw + len,
                )
            },
        }
    }
}

/// The number of bytes that the first `k` values of `s` take, or the error
/// that stops the measurement. Running out of values is a shortfall.
pub open spec fn skip(s: Seq<u8>, k: nat) -> Result<nat, Error>
    decreases s.len(), 1nat,
{
    if k == 0 {
        Ok(0)
    } else {
        match parse(s) {
            Parsed::End => Err(Error::InsufficientBytes),
            Parsed::Fail(e) => Err(e),
            Parsed::Item(_, n) => {
                if 1 <= n <= s.len() {
                    match skip(s.subrange(n as int, s.len() as int), (k - 1) as nat) {
                        Ok(r) => Ok(n + r),
                        Err(e) => Err(e),
                    }
                } else {
                    Err(Error::InsufficientBytes)
                }
            },
        }
    }
}

/// A decoded value never takes more bytes than the input has, and at least
/// its marker.
pub proof fn lemma_parse_len(s: Seq<u8>)
    ensures
        parse(s) is Item ==> 1 <= parse(s)->Item_1 <= s.len(),
    decreases s.len(), 0nat,
{
    reveal(parse);
    reveal(parse_body);
    if s.len() > 0 {
        lemma_body_len(marker_of_byte(s[0]), s.subrange(1, s.len() as int));
    }
}

pub proof fn lemma_body_len(m: Marker, t: Seq<u8>)
    ensures
        parse_body(m, t) is Item ==> parse_body(m, t)->Item_1 <= t.len(),
    decreases t.len(), 3nat,
{
    reveal(parse);
    reveal(parse_body);
    if is_array(m) || is_map(m) {
        lemma_container_len(m, t);
    }
}

pub proof fn lemma_container_len(m: Marker, t: Seq<u8>)
    ensures
        parse_container(m, t) is Item ==> parse_container(m, t)->Item_1 <= t.len(),
    decreases t.len(), 2nat,
{
    reveal(parse);
    reveal(parse_body);
    let hw = len_width(m);
    if t.len() >= hw {
        let t2 = t.subrange(hw as int, t.len() as int);
        let c = item_count(m, len_field(m, t));
        lemma_skip_len(t2, c);
        assert(t2.len() == t.len() - hw);
        if skip(t2, c) is Ok {
            assert(hw + skip(t2, c)->Ok_0 <= t.len());
            assert(parse_container(m, t)->Item_1 == hw + skip(t2, c)->Ok_0);
        }
    }
}

pub proof fn lemma_skip_len(s: Seq<u8>, k: nat)
    ensures
        skip(s, k) is Ok ==> skip(s, k)->Ok_0 <= s.len(),
    decreases s.len(), 1nat,
{
    reveal(parse);
    reveal(parse_body);
    if k > 0 {
        lemma_parse_len(s);
        if let Parsed::Item(_, n) = parse(s) {
            if 1 <= n <= s.len() {
                lemma_skip_len(s.subrange(n as int, s.len() as int), (k - 1) as nat);
            }
        }
    }
}

/// Decoding reads the marker, then what follows it.
pub proof fn lemma_parse_unfold(s: Seq<u8>)
    ensures
        s.len() == 0 ==> parse(s) is End,
        s.len() > 0 ==> parse(s) == match parse_body(
            marker_of_byte(s[0]),
            s.subrange(1, s.len() as int),
        ) {
            Parsed::Item(e, n) => Parsed::Item(e, n + 1),
            other => other,
        },
{
    reveal(parse);
    reveal(parse_body);
}

/// What follows a marker is decoded by the rule of its kind.
pub proof fn lemma_body_unfold(m: Marker, t: Seq<u8>)
    ensures
        is_sized_scalar(m) ==> parse_body(m, t) == parse_scalar(m, t),
        is_str(m) || is_bin(m) ==> parse_body(m, t) == parse_blob(m, t),
        is_ext(m) ==> parse_body(m, t) == parse_ext(m, t),
        is_array(m) || is_map(m) ==> parse_body(m, t) == parse_container(m, t),
        m is Reserved ==> parse_body(m, t) == Parsed::Fail(Error::InvalidMarker),
        m is Null ==> parse_body(m, t) == Parsed::Item(Event::Nil(m), 0),
        m is True ==> parse_body(m, t) == Parsed::Item(Event::Bool(m, true), 0),
        m is False ==> parse_body(m, t) == Parsed::Item(Event::Bool(m, false), 0),
        m is FixPos ==> parse_body(m, t) == Parsed::Item(Event::UInt(m, m->FixPos_0 as u64), 0),
        m is FixNeg ==> parse_body(m, t) == Parsed::Item(Event::IInt(m, m->FixNeg_0 as i64), 0),
{
    reveal(parse);
    reveal(parse_body);
}

/// One step of the measurement: the first value, then the rest.
pub proof fn lemma_skip_step(s: Seq<u8>, k: nat)
    ensures
        k == 0 ==> skip(s, k) == Ok::<nat, Error>(0),
        k > 0 && parse(s) is End ==> skip(s, k) == Err::<nat, Error>(Error::InsufficientBytes),
        k > 0 && parse(s) is Fail ==> skip(s, k) == Err::<nat, Error>(parse(s)->Fail_0),
        k > 0 && parse(s) is Item ==> 1 <= parse(s)->Item_1 <= s.len() && skip(s, k) == shifted(
            skip(s.subrange(parse(s)->Item_1 as int, s.len() as int), (k - 1) as nat),
            parse(s)->Item_1,
        ),
{
    reveal(parse);
    reveal(parse_body);
    lemma_parse_len(s);
}

/// A container whose header or contents fall short decodes to that failure.
pub proof fn lemma_container_fail(m: Marker, t: Seq<u8>)
    requires
        is_array(m) || is_map(m),
    ensures
        t.len() < len_width(m) ==> parse_container(m, t) == Parsed::Fail(Error::InsufficientBytes),
        len_width(m) <= t.len() && skip(
            t.subrange(len_width(m) as int, t.len() as int),
            item_count(m, len_field(m, t)),
        ) is Err ==> parse_container(m, t) == Parsed::Fail(
            skip(
                t.subrange(len_width(m) as int, t.len() as int),
                item_count(m, len_field(m, t)),
            )->Err_0,
        ),
{
    reveal(parse);
    reveal(parse_body);
}

/// A container whose contents measure `len` bytes decodes to its span.
pub proof fn lemma_container_item(m: Marker, t: Seq<u8>, len: nat)
    requires
        is_array(m) || is_map(m),
        len_width(m) <= t.len(),
        skip(t.subrange(len_width(m) as int, t.len() as int), item_count(m, len_field(m, t)))
            == Ok::<nat, Error>(len),
    ensures
        parse_container(m, t) == Parsed::Item(
            if is_map(m) {
                Event::MapEntries(
                    m,
                    len_field(m, t) as u32,
                    t.subrange(len_width(m) as int, (len_width(m) + len) as int),
                )
            } else {
                Event::Array(
                    m,
                    len_field(m, t) as u32,
                    t.subrange(len_width(m) as int, (len_width(m) + len) as int),
                )
            },
            len_width(m) + len,
        ),
{
    reveal(parse);
    reveal(parse_body);
}

/// The text payload of a string event: checked text, or the raw bytes with
/// the reason they are not UTF-8.
pub open spec fn text_bytes<'a>(p: Result<&'a str, (core::str::Utf8Error, &'a [u8])>) -> Seq<u8> {
    match p {
        Ok(s) => s.spec_bytes(),
        Err((_, b)) => b@,
    }
}

/// One decoded value. Every payload borrows from the input.
#[derive(Debug)]
pub enum ReadResult<'a> {
    Null(Marker),
    Bool(Marker, bool),
    UInt(Marker, u64),
    IInt(Marker, i64),
    /// A 32-bit float, as its IEEE-754 bits.
    F32(Marker, u32),
    /// A 64-bit float, as its IEEE-754 bits.
    F64(Marker, u64),
    Str(Marker, Result<&'a str, (core::str::Utf8Error, &'a [u8])>),
    Bin(Marker, &'a [u8]),
    /// The marker, the number of elements, and the raw bytes of the elements.
    Array(Marker, u32, &'a [u8]),
    /// The marker and a reader over the pairs of the map.
    MapEntries(Marker, MapReader<'a>),
    Ext(Marker, i8, &'a [u8]),
}

impl<'a> ReadResult<'a> {
    /// The decoded value as plain data.
    pub open spec fn event(&self) -> Event {
        match self {
            ReadResult::Null(m) => Event::Nil(*m),
            ReadResult::Bool(m, b) => Event::Bool(*m, *b),
            ReadResult::UInt(m, v) => Event::UInt(*m, *v),
            ReadResult::IInt(m, v) => Event::IInt(*m, *v),
            ReadResult::F32(m, v) => Event::F32(*m, *v),
            ReadResult::F64(m, v) => Event::F64(*m, *v),
            ReadResult::Str(m, p) => Event::Str(*m, text_bytes(*p)),
            ReadResult::Bin(m, b) => Event::Bin(*m, b@),
            ReadResult::Array(m, k, b) => Event::Array(*m, *k, b@),
            ReadResult::MapEntries(m, r) => Event::MapEntries(*m, r.count() as u32, r.remaining_input()),
            ReadResult::Ext(m, t, b) => Event::Ext(*m, *t, b@),
        }
    }

    /// Text is checked exactly when it is valid UTF-8, and a map's reader
    /// starts at its first pair.
    pub open spec fn wf(&self) -> bool {
        match self {
            ReadResult::Str(_, p) => (p is Ok <==> valid_utf8(text_bytes(*p))),
            ReadResult::MapEntries(_, r) => r.wf() && r.index() == 0,
            _ => true,
        }
    }
}

/// Whether `r` is what decoding a value described by `p` gives.
pub open spec fn produced<'a>(p: Parsed, r: Result<ReadResult<'a>, Error>) -> bool {
    match p {
        Parsed::End => false,
        Parsed::Fail(e) => r == Err::<ReadResult<'a>, Error>(e),
        Parsed::Item(ev, _) => r is Ok && r->Ok_0.event() == ev && r->Ok_0.wf(),
    }
}

/// A measurement result moved by `by` bytes.
pub open spec fn shifted(r: Result<nat, Error>, by: nat) -> Result<nat, Error> {
    match r {
        Ok(n) => Ok(n + by),
        Err(e) => Err(e),
    }
}

/// A decoder over a byte sequence, producing one value per call.
#[derive(Debug)]
pub struct Reader<'a> {
    bytes: Bytes<'a>,
}

impl<'a> View for Reader<'a> {
    type V = (Seq<u8>, nat);

    /// The whole input and the offset of the next value.
    closed spec fn view(&self) -> (Seq<u8>, nat) {
        self.bytes@
    }
}

impl<'a> Reader<'a> {
    pub open spec fn wf(&self) -> bool {
        self@.1 <= self@.0.len()
    }

    /// The bytes not yet decoded.
    pub open spec fn rest(&self) -> Seq<u8> {
        self@.0.subrange(self@.1 as int, self@.0.len() as int)
    }

    pub fn new(buf: &'a [u8]) -> (r: Reader<'a>)
        ensures
            r@ == (buf@, 0nat),
            r.wf(),
    {
        Reader { bytes: Bytes::new(buf) }
    }

    /// The offset of the next value.
    pub fn position(&self) -> (p: usize)
        ensures
            p == self@.1,
    {
        self.bytes.position()
    }

    /// Checks text for UTF-8. Invalid text is kept as raw bytes beside the
    /// reason, since the format allows it.
    fn try_convert_str(buffer: &'a [u8]) -> (r: Result<&'a str, (core::str::Utf8Error, &'a [u8])>)
        ensures
            text_bytes(r) == buffer@,
            r is Ok <==> valid_utf8(buffer@),
    {
        match str_from_utf8(buffer) {
            Ok(res) => Ok(res),
            Err(err) => Err((err, buffer)),
        }
    }

    /// Reads the length or count announced by `m`.
    fn read_len(&mut self, m: Marker) -> (r: Result<u32, Error>)
        requires
            old(self).wf(),
            has_length(m),
        ensures
            final(self).wf(),
            final(self)@.0 == old(self)@.0,
            r is Ok <==> len_width(m) <= old(self).rest().len(),
            r is Ok ==> r->Ok_0 == len_field(m, old(self).rest()) && final(self)@.1 == old(
                self,
            )@.1 + len_width(m),
            r is Err ==> r->Err_0 == Error::InsufficientBytes,
    {
        match m {
            Marker::FixStr(n) => Ok(n as u32),
            Marker::FixArray(n) => Ok(n as u32),
            Marker::FixMap(n) => Ok(n as u32),
            Marker::FixExt1 => Ok(1),
            Marker::FixExt2 => Ok(2),
            Marker::FixExt4 => Ok(4),
            Marker::FixExt8 => Ok(8),
            Marker::FixExt16 => Ok(16),
            Marker::Str8 | Marker::Bin8 | Marker::Ext8 => match self.bytes.read_data_u8() {
                Ok(v) => Ok(v as u32),
                Err(_) => Err(Error::InsufficientBytes),
            },
            Marker::Str16 | Marker::Bin16 | Marker::Ext16 | Marker::Array16 | Marker::Map16 => {
                match self.bytes.read_data_u16() {
                    Ok(v) => Ok(v as u32),
                    Err(_) => Err(Error::InsufficientBytes),
                }
            },
            _ => match self.bytes.read_data_u32() {
                Ok(v) => Ok(v),
                Err(_) => Err(Error::InsufficientBytes),
            },
        }
    }

    /// Decodes a fixed-width number.
    fn read_scalar(&mut self, m: Marker) -> (r: Result<ReadResult<'a>, Error>)
        requires
            old(self).wf(),
            is_sized_scalar(m),
        ensures
            final(self).wf(),
            final(self)@.0 == old(self)@.0,
            produced(parse_scalar(m, old(self).rest()), r),
            parse_scalar(m, old(self).rest()) is Item ==> final(self)@.1 == old(self)@.1 + parse_scalar(
                m,
                old(self).rest(),
            )->Item_1,
    {
        let ghost t = self.rest();
        let r = match m {
            Marker::U8 => match self.bytes.read_data_u8() {
                Ok(v) => Ok(ReadResult::UInt(m, v as u64)),
                Err(_) => Err(Error::InsufficientBytes),
            },
            Marker::U16 => match self.bytes.read_data_u16() {
                Ok(v) => Ok(ReadResult::UInt(m, v as u64)),
                Err(_) => Err(Error::InsufficientBytes),
            },
            Marker::U32 => match self.bytes.read_data_u32() {
                Ok(v) => Ok(ReadResult::UInt(m, v as u64)),
                Err(_) => Err(Error::InsufficientBytes),
            },
            Marker::U64 => match self.bytes.read_data_u64() {
                Ok(v) => Ok(ReadResult::UInt(m, v)),
                Err(_) => Err(Error::InsufficientBytes),
            },
            Marker::I8 => match self.bytes.read_data_i8() {
                Ok(v) => Ok(ReadResult::IInt(m, v as i64)),
                Err(_) => Err(Error::InsufficientBytes),
            },
            Marker::I16 => match self.bytes.read_data_i16() {
                Ok(v) => Ok(ReadResult::IInt(m, v as i64)),
                Err(_) => Err(Error::InsufficientBytes),
            },
            Marker::I32 => match self.bytes.read_data_i32() {
                Ok(v) => Ok(ReadResult::IInt(m, v as i64)),
                Err(_) => Err(Error::InsufficientBytes),
            },
            Marker::I64 => match self.bytes.read_data_i64() {
                Ok(v) => Ok(ReadResult::IInt(m, v)),
                Err(_) => Err(Error::InsufficientBytes),
            },
            Marker::F32 => match self.bytes.read_data_u32() {
                Ok(v) => Ok(ReadResult::F32(m, v)),
                Err(_) => Err(Error::InsufficientBytes),
            },
            _ => match self.bytes.read_data_u64() {
                Ok(v) => Ok(ReadResult::F64(m, v)),
                Err(_) => Err(Error::InsufficientBytes),
            },
        };
        proof {
            if t.len() >= 2 {
                lemma_be2_bound(t, 0);
            }
            if t.len() >= 4 {
                lemma_be4_bound(t, 0);
            }
        }
        r
    }

    /// Decodes `items` values and discards them, leaving the reader after
    /// them: the measurement pass behind a container's span.
    fn skip_values(nested: &mut Reader<'a>, items: u64) -> (r: Result<(), Error>)
        requires
            old(nested).wf(),
        ensures
            final(nested).wf(),
            final(nested)@.0 == old(nested)@.0,
            match skip(old(nested).rest(), items as nat) {
                Ok(n) => r is Ok && final(nested)@.1 == old(nested)@.1 + n,
                Err(e) => r == Err::<(), Error>(e),
            },
        decreases old(nested).rest().len(), 1nat,
    {
        proof {
            reveal(parse);
            reveal(parse_body);
        }
        let ghost s0 = nested.rest();
        let ghost start = nested@.1;
        let mut i: u64 = 0;
        while i < items
            invariant
                nested.wf(),
                nested@.0 == old(nested)@.0,
                i <= items,
                nested.rest().len() <= s0.len(),
                s0 == old(nested).rest(),
                start == old(nested)@.1,
                skip(s0, items as nat) == shifted(skip(nested.rest(), (items - i) as nat), (nested@.1 - start) as nat),
                start <= nested@.1,
            decreases items - i,
        {
            let ghost r0 = nested.rest();
            proof {
                lemma_skip_step(r0, (items - i) as nat);
            }
            match nested.read() {
                Ok(Some(_)) => {},
                Ok(None) => {
                    proof {
                        assert(skip(s0, items as nat) == Err::<nat, Error>(Error::InsufficientBytes));
                    }
                    return Err(Error::InsufficientBytes);
                },
                Err(e) => {
                    proof {
                        assert(skip(s0, items as nat) == Err::<nat, Error>(e));
                    }
                    return Err(e);
                },
            }
            proof {
                let n = parse(r0)->Item_1;
                assert(nested.rest() =~= r0.subrange(n as int, r0.len() as int));
            }
            i = i + 1;
        }
        proof {
                }
        Ok(())
    }

    /// Decodes a string or a binary payload.
    fn read_blob(&mut self, m: Marker) -> (r: Result<ReadResult<'a>, Error>)
        requires
            old(self).wf(),
            is_str(m) || is_bin(m),
        ensures
            final(self).wf(),
            final(self)@.0 == old(self)@.0,
            produced(parse_blob(m, old(self).rest()), r),
            parse_blob(m, old(self).rest()) is Item ==> final(self)@.1 == old(self)@.1 + parse_blob(
                m,
                old(self).rest(),
            )->Item_1,
    {
        let ghost t = self.rest();
        let ghost hw: int = len_width(m) as int;
        let n = match self.read_len(m) {
            Ok(n) => n,
            Err(e) => return Err(e),
        };
        proof {
            assert(self.rest() =~= t.subrange(hw as int, t.len() as int));
        }
        let data = match self.bytes.read_exact_ref(n as usize) {
            Ok(d) => d,
            Err(_) => return Err(Error::InsufficientBytes),
        };
        proof {
            assert(data@ =~= t.subrange(hw, hw + n as int));
        }
        match m {
            Marker::FixStr(_) | Marker::Str8 | Marker::Str16 | Marker::Str32 => Ok(
                ReadResult::Str(m, Reader::try_convert_str(data)),
            ),
            _ => Ok(ReadResult::Bin(m, data)),
        }
    }

    /// Decodes an extension: its type id and payload.
    fn read_ext(&mut self, m: Marker) -> (r: Result<ReadResult<'a>, Error>)
        requires
            old(self).wf(),
            is_ext(m),
        ensures
            final(self).wf(),
            final(self)@.0 == old(self)@.0,
            produced(parse_ext(m, old(self).rest()), r),
            parse_ext(m, old(self).rest()) is Item ==> final(self)@.1 == old(self)@.1 + parse_ext(
                m,
                old(self).rest(),
            )->Item_1,
    {
        let ghost t = self.rest();
        let ghost hw: int = len_width(m) as int;
        let n = match self.read_len(m) {
            Ok(n) => n,
            Err(e) => return Err(e),
        };
        proof {
            assert(self.rest() =~= t.subrange(hw as int, t.len() as int));
        }
        let ty = match self.bytes.read_data_i8() {
            Ok(v) => v,
            Err(_) => return Err(Error::InsufficientBytes),
        };
        proof {
            assert(self.rest() =~= t.subrange(hw + 1, t.len() as int));
        }
        let data = match self.bytes.read_exact_ref(n as usize) {
            Ok(d) => d,
            Err(_) => return Err(Error::InsufficientBytes),
        };
        proof {
            assert(data@ =~= t.subrange(hw + 1, hw + 1 + n as int));
        }
        Ok(ReadResult::Ext(m, ty, data))
    }

    /// Decodes an array or map header, then measures its contents by decoding
    /// them on a nested reader and discarding the values, and returns the
    /// contents as one span.
    fn read_container(&mut self, m: Marker) -> (r: Result<ReadResult<'a>, Error>)
        requires
            old(self).wf(),
            is_array(m) || is_map(m),
        ensures
            final(self).wf(),
            final(self)@.0 == old(self)@.0,
            produced(parse_container(m, old(self).rest()), r),
            parse_container(m, old(self).rest()) is Item ==> final(self)@.1 == old(self)@.1 + parse_container(
                m,
                old(self).rest(),
            )->Item_1,
        decreases old(self).rest().len(), 2nat,
    {
        let ghost t = self.rest();
        let ghost hw: int = len_width(m) as int;
        proof {
            lemma_container_fail(m, t);
        }
        let k = match self.read_len(m) {
            Ok(n) => n,
            Err(e) => return Err(e),
        };
        let ghost t2 = self.rest();
        proof {
            assert(t2 =~= t.subrange(hw as int, t.len() as int));
        }
        let items: u64 = match m {
            Marker::FixMap(_) | Marker::Map16 | Marker::Map32 => 2 * (k as u64),
            _ => k as u64,
        };
        let mut nested = Reader::new(self.bytes.remaining_slice());
        proof {
            assert(nested.rest() =~= t2);
        }
        let ghost c = item_count(m, len_field(m, t));
        proof {
            assert(items == c);
            assert(k == len_field(m, t));
        }
        match Reader::skip_values(&mut nested, items) {
            Ok(()) => {},
            Err(e) => {
                proof {
                    assert(skip(t2, c) == Err::<nat, Error>(e));
                }
                return Err(e);
            },
        }
        let ghost len = nested@.1;
        proof {
            assert(skip(t2, c) == Ok::<nat, Error>(len));
            lemma_skip_len(t2, c);
        }
        let span = match self.bytes.read_exact_ref(nested.position()) {
            Ok(s) => s,
            Err(_) => return Err(Error::InsufficientBytes),
        };
        proof {
            assert(span@ =~= t.subrange(hw, hw + len));
        }
        proof {
            lemma_container_item(m, t, len);
        }
        Ok(Reader::container_result(m, k, span))
    }

    /// The event of a measured container.
    fn container_result(m: Marker, k: u32, span: &'a [u8]) -> (r: ReadResult<'a>)
        requires
            is_array(m) || is_map(m),
        ensures
            r.wf(),
            r.event() == (if is_map(m) {
                Event::MapEntries(m, k, span@)
            } else {
                Event::Array(m, k, span@)
            }),
    {
        match m {
            Marker::FixMap(_) | Marker::Map16 | Marker::Map32 => ReadResult::MapEntries(
                m,
                MapReader::new(k, span),
            ),
            _ => ReadResult::Array(m, k, span),
        }
    }

    /// Decodes what follows the marker `m`.
    fn read_body(&mut self, m: Marker) -> (r: Result<ReadResult<'a>, Error>)
        requires
            old(self).wf(),
        ensures
            final(self).wf(),
            final(self)@.0 == old(self)@.0,
            produced(parse_body(m, old(self).rest()), r),
            parse_body(m, old(self).rest()) is Item ==> final(self)@.1 == old(self)@.1 + parse_body(
                m,
                old(self).rest(),
            )->Item_1,
        decreases old(self).rest().len(), 3nat,
    {
        proof {
            reveal(parse);
            reveal(parse_body);
        }
        match m {
            Marker::Reserved => Err(Error::InvalidMarker),
            Marker::Null => Ok(ReadResult::Null(m)),
            Marker::True => Ok(ReadResult::Bool(m, true)),
            Marker::False => Ok(ReadResult::Bool(m, false)),
            Marker::FixPos(v) => Ok(ReadResult::UInt(m, v as u64)),
            Marker::FixNeg(v) => Ok(ReadResult::IInt(m, v as i64)),
            Marker::U8 | Marker::U16 | Marker::U32 | Marker::U64 | Marker::I8 | Marker::I16
            | Marker::I32 | Marker::I64 | Marker::F32 | Marker::F64 => self.read_scalar(m),
            Marker::FixStr(_) | Marker::Str8 | Marker::Str16 | Marker::Str32 | Marker::Bin8
            | Marker::Bin16 | Marker::Bin32 => self.read_blob(m),
            Marker::FixExt1 | Marker::FixExt2 | Marker::FixExt4 | Marker::FixExt8
            | Marker::FixExt16 | Marker::Ext8 | Marker::Ext16 | Marker::Ext32 => self.read_ext(m),
            _ => self.read_container(m),
        }
    }

    /// Decodes the next value. `Ok(None)` means the input ended cleanly at a
    /// value boundary; a shortfall after the marker is an error. Arrays and
    /// maps come back as the raw span of their contents.
    pub fn read(&mut self) -> (r: Result<Option<ReadResult<'a>>, Error>)
        requires
            old(self).wf(),
        ensures
            final(self).wf(),
            final(self)@.0 == old(self)@.0,
            match parse(old(self).rest()) {
                Parsed::End => r == Ok::<Option<ReadResult<'a>>, Error>(None) && final(self)@
                    == old(self)@,
                Parsed::Fail(e) => r == Err::<Option<ReadResult<'a>>, Error>(e),
                Parsed::Item(ev, n) => r is Ok && r->Ok_0 is Some && r->Ok_0->Some_0.event() == ev
                    && r->Ok_0->Some_0.wf() && final(self)@.1 == old(self)@.1 + n,
            },
        decreases old(self).rest().len(), 0nat,
    {
        proof {
            reveal(parse);
            reveal(parse_body);
        }
        let ghost s = self.rest();
        let b = match self.bytes.read_data_u8() {
            Ok(b) => b,
            Err(_) => return Ok(None),
        };
        let m = Marker::from_u8(b);
        proof {
            assert(self.rest() =~= s.subrange(1, s.len() as int));
        }
        match self.read_body(m) {
            Ok(v) => Ok(Some(v)),
            Err(e) => Err(e),
        }
    }

    /// The next value, `None` once the input has ended at a value boundary.
    pub fn next(&mut self) -> (r: Option<Result<ReadResult<'a>, Error>>)
        requires
            old(self).wf(),
        ensures
            final(self).wf(),
            final(self)@.0 == old(self)@.0,
            match parse(old(self).rest()) {
                Parsed::End => r is None && final(self)@ == old(self)@,
                Parsed::Fail(e) => r == Some(Err::<ReadResult<'a>, Error>(e)),
                Parsed::Item(ev, n) => r is Some && r->Some_0 is Ok && r->Some_0->Ok_0.event() == ev
                    && r->Some_0->Ok_0.wf() && final(self)@.1 == old(self)@.1 + n,
            },
    {
        match self.read() {
            Ok(res) => match res {
                Some(val) => Some(Ok(val)),
                None => None,
            },
            Err(err) => Some(Err(err)),
        }
    }
}

/// What reading one key/value pair from the front of `s` gives.
pub enum PairStep {
    /// The input ended before the key or the value.
    Missing,
    /// The key or the value is malformed.
    Broken,
    /// The key, the value, and the bytes they take together.
    Pair(Event, Event, nat),
}

pub open spec fn pair_step(s: Seq<u8>) -> PairStep {
    match parse(s) {
        Parsed::End => PairStep::Missing,
        Parsed::Fail(_) => PairStep::Broken,
        Parsed::Item(k, n1) => match parse(s.subrange(n1 as int, s.len() as int)) {
            Parsed::End => PairStep::Missing,
            Parsed::Fail(_) => PairStep::Broken,
            Parsed::Item(v, n2) => PairStep::Pair(k, v, n1 + n2),
        },
    }
}

/// Why a map's pair could not be read.
#[derive(Debug)]
pub enum MapReadError {
    /// The span ran out before the pair.
    MapEmpty,
    /// The pair is malformed.
    ParseError,
}

impl From<Error> for MapReadError {
    fn from(_value: Error) -> (r: MapReadError) {
        MapReadError::ParseError
    }
}

impl vstd::std_specs::convert::FromSpecImpl<Error> for MapReadError {
    open spec fn obeys_from_spec() -> bool {
        true
    }

    open spec fn from_spec(v: Error) -> MapReadError {
        MapReadError::ParseError
    }
}

impl From<core::str::Utf8Error> for Error {
    fn from(_value: core::str::Utf8Error) -> (r: Error) {
        Error::Utf8Error
    }
}

impl vstd::std_specs::convert::FromSpecImpl<core::str::Utf8Error> for Error {
    open spec fn obeys_from_spec() -> bool {
        true
    }

    open spec fn from_spec(v: core::str::Utf8Error) -> Error {
        Error::Utf8Error
    }
}

/// A lazy reader over the pairs of a measured map span. It yields at most the
/// declared number of pairs and never looks at bytes after them.
#[derive(Debug)]
pub struct MapReader<'a> {
    reader: Reader<'a>,
    count: u32,
    index: u32,
}

/// The reserved tag where a value was expected.
#[derive(Debug)]
pub struct InvalidMarker {}

impl From<InvalidMarker> for Error {
    fn from(_value: InvalidMarker) -> (r: Error) {
        Error::InvalidMarker
    }
}

impl vstd::std_specs::convert::FromSpecImpl<InvalidMarker> for Error {
    open spec fn obeys_from_spec() -> bool {
        true
    }

    open spec fn from_spec(v: InvalidMarker) -> Error {
        Error::InvalidMarker
    }
}

impl<'a> MapReader<'a> {
    /// The bytes of the pairs not yet read.
    pub closed spec fn remaining_input(&self) -> Seq<u8> {
        self.reader.rest()
    }

    /// The declared number of pairs.
    pub closed spec fn count(&self) -> nat {
        self.count as nat
    }

    /// How many pairs have been read, or the count once reading stopped.
    pub closed spec fn index(&self) -> nat {
        self.index as nat
    }

    pub closed spec fn wf(&self) -> bool {
        self.reader.wf() && self.index <= self.count
    }

    pub fn new(count: u32, buffer: &'a [u8]) -> (r: MapReader<'a>)
        ensures
            r.wf(),
            r.remaining_input() == buffer@,
            r.count() == count,
            r.index() == 0,
    {
        let r = MapReader { reader: Reader::new(buffer), count, index: 0 };
        proof {
            assert(r.reader.rest() =~= buffer@);
        }
        r
    }

    /// The declared number of pairs.
    pub fn len(&self) -> (n: usize)
        ensures
            n == self.count(),
    {
        self.count as usize
    }

    fn read_map(&mut self) -> (r: Result<(ReadResult<'a>, ReadResult<'a>), MapReadError>)
        requires
            old(self).wf(),
        ensures
            final(self).reader.wf(),
            final(self).count == old(self).count,
            final(self).index == old(self).index,
            match pair_step(old(self).remaining_input()) {
                PairStep::Missing => r is Err && r->Err_0 is MapEmpty,
                PairStep::Broken => r is Err && r->Err_0 is ParseError,
                PairStep::Pair(k, v, n) => r is Ok && r->Ok_0.0.event() == k && r->Ok_0.1.event()
                    == v && r->Ok_0.0.wf() && r->Ok_0.1.wf() && final(self).remaining_input()
                    == old(self).remaining_input().subrange(n as int, old(self).remaining_input().len() as int),
            },
    {
        let ghost s = self.reader.rest();
        let ghost p1 = parse(s);
        proof {
            lemma_parse_len(s);
        }
        let key = match self.reader.next() {
            None => {
                proof {
                    assert(p1 is End);
                    assert(pair_step(s) is Missing);
                }
                return Err(MapReadError::MapEmpty);
            },
            Some(Err(_)) => {
                proof {
                    assert(p1 is Fail);
                    assert(pair_step(s) is Broken);
                }
                return Err(MapReadError::ParseError);
            },
            Some(Ok(k)) => k,
        };
        let ghost s1 = self.reader.rest();
        let ghost p2 = parse(s1);
        proof {
            assert(p1 is Item);
            assert(s1 =~= s.subrange(p1->Item_1 as int, s.len() as int));
            lemma_parse_len(s1);
        }
        let val = match self.reader.next() {
            None => {
                proof {
                    assert(p2 is End);
                    assert(pair_step(s) is Missing);
                }
                return Err(MapReadError::MapEmpty);
            },
            Some(Err(_)) => {
                proof {
                    assert(p2 is Fail);
                    assert(pair_step(s) is Broken);
                }
                return Err(MapReadError::ParseError);
            },
            Some(Ok(v)) => v,
        };
        proof {
            assert(p2 is Item);
            assert(self.reader.rest() =~= s.subrange(
                (p1->Item_1 + p2->Item_1) as int,
                s.len() as int,
            ));
            assert(pair_step(s) == PairStep::Pair(p1->Item_0, p2->Item_0, p1->Item_1 + p2->Item_1));
        }
        Ok((key, val))
    }

    /// The next pair. After the declared count, or after the first failure,
    /// there are no more. A span that ends before the count is reached gives
    /// `MapMissingElementsError`; a malformed key or value gives
    /// `ValueReadError`.
    pub fn next(&mut self) -> (r: Option<Result<(ReadResult<'a>, ReadResult<'a>), Error>>)
        requires
            old(self).wf(),
        ensures
            final(self).wf(),
            final(self).count() == old(self).count(),
            old(self).index() >= old(self).count() ==> r is None && *final(self) == *old(self),
            old(self).index() < old(self).count() ==> match pair_step(old(self).remaining_input()) {
                PairStep::Missing => r == Some(
                    Err::<(ReadResult<'a>, ReadResult<'a>), Error>(Error::MapMissingElementsError),
                ) && final(self).index() == final(self).count(),
                PairStep::Broken => r == Some(
                    Err::<(ReadResult<'a>, ReadResult<'a>), Error>(Error::ValueReadError),
                ) && final(self).index() == final(self).count(),
                PairStep::Pair(k, v, n) => r is Some && r->Some_0 is Ok && r->Some_0->Ok_0.0.event()
                    == k && r->Some_0->Ok_0.1.event() == v && r->Some_0->Ok_0.0.wf()
                    && r->Some_0->Ok_0.1.wf() && final(self).index() == old(self).index() + 1
                    && final(self).remaining_input() == old(self).remaining_input().subrange(
                    n as int,
                    old(self).remaining_input().len() as int,
                ),
            },
    {
        if self.index < self.count {
            let res = self.read_map();
            match res {
                Ok((key, val)) => {
                    self.index += 1;
                    Some(Ok((key, val)))
                },
                Err(err) => {
                    self.index = self.count;
                    match err {
                        MapReadError::MapEmpty => Some(Err(Error::MapMissingElementsError)),
                        MapReadError::ParseError => Some(Err(Error::ValueReadError)),
                    }
                },
            }
        } else {
            None
        }
    }
}

} // verus!
