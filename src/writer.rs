//! Requests to encode one value, and the writer that carries them out.
use vstd::prelude::*;
use vstd::array::array_as_slice;
use vstd::string::StringSliceAdditionalSpecFns;

use crate::encode::{
    appended, be32, be32_bytes, be64, be64_bytes, bin_header, ext_header, fits, map_header,
    prefix_of, sint_encoding, str_header, uint_encoding, write_array_len, write_bin_len,
    write_ext_meta, write_header, write_map_len, write_marker, write_sint, write_str_len,
    write_uint, RmpWrite, array_header, lemma_appended_then,
};
use crate::errors::Error;
use crate::marker::{byte_of_marker, Marker};

verus! {

/// One value to encode. Integers take the smallest encoding that holds their
/// value; floats are given as their IEEE-754 bits. Arrays, maps and
/// extensions give only their header: their contents follow.
#[derive(Clone, Copy, Debug)]
pub enum WriteRequest<'a> {
    Null,
    Bool(bool),
    U8(u8),
    U16(u16),
    U32(u32),
    U64(u64),
    I8(i8),
    I16(i16),
    I32(i32),
    I64(i64),
    F32(u32),
    F64(u64),
    Str(&'a str),
    Bin(&'a [u8]),
    /// The header of an array of this many elements.
    Array(u32),
    /// The header of a map of this many pairs.
    MapEntries(u32),
    /// The header of an extension: its type id and the length of its data.
    Ext(i8, u32),
}

impl<'a> WriteRequest<'a> {
    /// A string or binary payload must have a length that fits a 32-bit field.
    pub open spec fn encodable(&self) -> bool {
        match self {
            WriteRequest::Str(s) => s.spec_bytes().len() <= u32::MAX,
            WriteRequest::Bin(b) => b@.len() <= u32::MAX,
            _ => true,
        }
    }

    /// The bytes this request writes.
    #[verifier::opaque]
    pub open spec fn encoding(&self) -> Seq<u8> {
        match self {
            WriteRequest::Null => seq![byte_of_marker(Marker::Null)],
            WriteRequest::Bool(b) => seq![
                byte_of_marker(
                    if *b {
                        Marker::True
                    } else {
                        Marker::False
                    },
                ),
            ],
            WriteRequest::U8(v) => uint_encoding(*v as nat),
            WriteRequest::U16(v) => uint_encoding(*v as nat),
            WriteRequest::U32(v) => uint_encoding(*v as nat),
            WriteRequest::U64(v) => uint_encoding(*v as nat),
            WriteRequest::I8(v) => sint_encoding(*v as i64),
            WriteRequest::I16(v) => sint_encoding(*v as i64),
            WriteRequest::I32(v) => sint_encoding(*v as i64),
            WriteRequest::I64(v) => sint_encoding(*v),
            WriteRequest::F32(bits) => seq![byte_of_marker(Marker::F32)] + be32_bytes(*bits as nat),
            WriteRequest::F64(bits) => seq![byte_of_marker(Marker::F64)] + be64_bytes(*bits as nat),
            WriteRequest::Str(s) => str_header(s.spec_bytes().len()) + s.spec_bytes(),
            WriteRequest::Bin(b) => bin_header(b@.len()) + b@,
            WriteRequest::Array(n) => array_header(*n as nat),
            WriteRequest::MapEntries(n) => map_header(*n as nat),
            WriteRequest::Ext(ty, n) => ext_header(*ty, *n as nat),
        }
    }

    fn write_map_marker<W: RmpWrite>(writer: &mut W, count: u32) -> (r: Result<(), Error>)
        requires
            old(writer).sink_wf(),
        ensures
            appended(*old(writer), *final(writer), r, map_header(count as nat)),
    {
        write_map_len(writer, count)
    }

    /// Appends the encoding of this request to `writer`.
    pub fn write_request<W: RmpWrite>(&mut self, writer: &mut W) -> (r: Result<(), Error>)
        requires
            old(writer).sink_wf(),
            old(self).encodable(),
        ensures
            *final(self) == *old(self),
            appended(*old(writer), *final(writer), r, old(self).encoding()),
    {
        proof {
            reveal(WriteRequest::encoding);
        }
        let ghost a = *writer;
        match self {
            WriteRequest::Null => write_marker(writer, Marker::Null),
            WriteRequest::Bool(val) => {
                if *val {
                    write_marker(writer, Marker::True)
                } else {
                    write_marker(writer, Marker::False)
                }
            },
            WriteRequest::U8(v) => write_uint(writer, *v as u64),
            WriteRequest::U16(v) => write_uint(writer, *v as u64),
            WriteRequest::U32(v) => write_uint(writer, *v as u64),
            WriteRequest::U64(v) => write_uint(writer, *v),
            WriteRequest::I8(v) => write_sint(writer, *v as i64),
            WriteRequest::I16(v) => write_sint(writer, *v as i64),
            WriteRequest::I32(v) => write_sint(writer, *v as i64),
            WriteRequest::I64(v) => write_sint(writer, *v),
            WriteRequest::F32(bits) => {
                let f = be32(*bits);
                write_header(writer, Marker::F32, array_as_slice(&f))
            },
            WriteRequest::F64(bits) => {
                let f = be64(*bits);
                write_header(writer, Marker::F64, array_as_slice(&f))
            },
            WriteRequest::Str(s) => {
                let bytes = s.as_bytes();
                match write_str_len(writer, bytes.len() as u32) {
                    Ok(()) => {},
                    Err(e) => {
                        proof {
                            lemma_prefix_extend(a.written(), writer.written(), str_header(bytes@.len()), bytes@);
                        }
                        return Err(e);
                    },
                }
                let ghost b = *writer;
                let r = writer.write_bytes(bytes);
                proof {
                    lemma_appended_then(a, b, *writer, r, str_header(bytes@.len()), bytes@);
                }
                r
            },
            WriteRequest::Bin(data) => {
                match write_bin_len(writer, data.len() as u32) {
                    Ok(()) => {},
                    Err(e) => {
                        proof {
                            lemma_prefix_extend(a.written(), writer.written(), bin_header(data@.len()), data@);
                        }
                        return Err(e);
                    },
                }
                let ghost b = *writer;
                let r = writer.write_bytes(data);
                proof {
                    lemma_appended_then(a, b, *writer, r, bin_header(data@.len()), data@);
                }
                r
            },
            WriteRequest::Array(n) => write_array_len(writer, *n),
            WriteRequest::MapEntries(count) => Self::write_map_marker(writer, *count),
            WriteRequest::Ext(ty, n) => write_ext_meta(writer, *n, *ty),
        }
    }
}

/// A failure part way through `e1` is a failure part way through `e1 + e2`.
pub proof fn lemma_prefix_extend(w: Seq<u8>, after: Seq<u8>, e1: Seq<u8>, e2: Seq<u8>)
    requires
        prefix_of(after, w + e1),
    ensures
        prefix_of(after, w + (e1 + e2)),
{
    assert((w + (e1 + e2)).subrange(0, (w + e1).len() as int) =~= w + e1);
    assert((w + (e1 + e2)).subrange(0, after.len() as int) =~= (w + e1).subrange(0, after.len() as int));
}

/// `prefix_of` chains.
pub proof fn lemma_prefix_trans(x: Seq<u8>, y: Seq<u8>, z: Seq<u8>)
    requires
        prefix_of(x, y),
        prefix_of(y, z),
    ensures
        prefix_of(x, z),
{
    assert(z.subrange(0, x.len() as int) =~= y.subrange(0, x.len() as int));
}

/// The same bytes in front keep a prefix a prefix.
pub proof fn lemma_prefix_front(w: Seq<u8>, x: Seq<u8>, y: Seq<u8>)
    requires
        prefix_of(x, y),
    ensures
        prefix_of(w + x, w + y),
{
    assert((w + y).subrange(0, (w + x).len() as int) =~= w + x);
}

/// The encoding of a map's pairs: each key, then its value, in order.
pub open spec fn pairs_encoding<'a>(e: Seq<(WriteRequest<'a>, WriteRequest<'a>)>) -> Seq<u8>
    decreases e.len(),
{
    if e.len() == 0 {
        Seq::empty()
    } else {
        pairs_encoding(e.drop_last()) + e.last().0.encoding() + e.last().1.encoding()
    }
}

/// The pairs before `j` encode to the start of the encoding of all pairs.
pub proof fn lemma_pairs_prefix<'a>(e: Seq<(WriteRequest<'a>, WriteRequest<'a>)>, j: int)
    requires
        0 <= j <= e.len(),
    ensures
        prefix_of(pairs_encoding(e.subrange(0, j)), pairs_encoding(e)),
    decreases e.len(),
{
    if j == e.len() {
        assert(e.subrange(0, j) =~= e);
        assert(pairs_encoding(e).subrange(0, pairs_encoding(e).len() as int) =~= pairs_encoding(e));
    } else {
        let d = e.drop_last();
        lemma_pairs_prefix(d, j);
        assert(d.subrange(0, j) =~= e.subrange(0, j));
        let whole = pairs_encoding(e);
        assert(whole == pairs_encoding(d) + e.last().0.encoding() + e.last().1.encoding());
        assert(whole.subrange(0, pairs_encoding(d).len() as int) =~= pairs_encoding(d));
        lemma_prefix_trans(pairs_encoding(e.subrange(0, j)), pairs_encoding(d), whole);
    }
}

/// What writing an encoding in several steps did to a sink: all of it went
/// in, or a failure of one step left a prefix of it.
pub open spec fn appended_in_steps<W: RmpWrite>(
    before: W,
    after: W,
    r: Result<(), Error>,
    enc: Seq<u8>,
) -> bool {
    &&& after.sink_wf()
    &&& after.capacity() == before.capacity()
    &&& (r is Ok <==> fits(&before, enc.len()))
    &&& r is Ok ==> after.written() == before.written() + enc
    &&& r is Err ==> prefix_of(before.written(), after.written()) && prefix_of(
        after.written(),
        before.written() + enc,
    ) && (r->Err_0 is MarkerWriteError || r->Err_0 is DataWriteError)
}

/// Writing `e1` and then `e2` step by step writes `e1 + e2` step by step.
pub proof fn lemma_steps_concat<W: RmpWrite>(
    a: W,
    b: W,
    c: W,
    r: Result<(), Error>,
    e1: Seq<u8>,
    e2: Seq<u8>,
)
    requires
        appended_in_steps(a, b, Ok(()), e1),
        appended_in_steps(b, c, r, e2),
    ensures
        appended_in_steps(a, c, r, e1 + e2),
{
    let w = a.written();
    assert((w + e1) + e2 =~= w + (e1 + e2));
    if r is Err {
        assert(prefix_of(w, w + e1)) by {
            assert((w + e1).subrange(0, w.len() as int) =~= w);
        }
        lemma_prefix_trans(w, w + e1, c.written());
    }
}

/// A failure part way through `e`, where `e` starts `total`, is a failure
/// part way through `total`.
pub proof fn lemma_steps_widen<W: RmpWrite>(a: W, c: W, r: Result<(), Error>, e: Seq<u8>, total: Seq<u8>)
    requires
        r is Err,
        appended_in_steps(a, c, r, e),
        prefix_of(e, total),
    ensures
        appended_in_steps(a, c, r, total),
{
    lemma_prefix_front(a.written(), e, total);
    lemma_prefix_trans(c.written(), a.written() + e, a.written() + total);
}

/// Writes a map: its header with the number of pairs, then each key and its
/// value.
pub fn write_map<'a, W: RmpWrite>(wr: &mut W, entries: &[(WriteRequest<'a>, WriteRequest<'a>)]) -> (r:
    Result<(), Error>)
    requires
        old(wr).sink_wf(),
        entries@.len() <= u32::MAX,
        forall|i: int|
            0 <= i < entries@.len() ==> (#[trigger] entries@[i]).0.encodable()
                && entries@[i].1.encodable(),
    ensures
        appended_in_steps(
            *old(wr),
            *final(wr),
            r,
            map_header(entries@.len()) + pairs_encoding(entries@),
        ),
{
    let ghost a = *wr;
    let ghost h = map_header(entries@.len());
    let ghost all = pairs_encoding(entries@);
    let ghost total = h + all;
    match write_map_len(wr, entries.len() as u32) {
        Ok(()) => {},
        Err(e) => {
            proof {
                lemma_prefix_extend(a.written(), wr.written(), h, all);
            }
            return Err(e);
        },
    }
    proof {
        assert(entries@.subrange(0, 0) =~= Seq::<(WriteRequest<'a>, WriteRequest<'a>)>::empty());
        assert(h + pairs_encoding(entries@.subrange(0, 0)) =~= h);
    }
    let mut i: usize = 0;
    while i < entries.len()
        invariant
            i <= entries@.len(),
            h == map_header(entries@.len()),
            all == pairs_encoding(entries@),
            total == h + all,
            a == *old(wr),
            appended_in_steps(a, *wr, Ok(()), h + pairs_encoding(entries@.subrange(0, i as int))),
            forall|j: int|
                0 <= j < entries@.len() ==> (#[trigger] entries@[j]).0.encodable()
                    && entries@[j].1.encodable(),
        decreases entries@.len() - i,
    {
        let ghost done = h + pairs_encoding(entries@.subrange(0, i as int));
        let ghost next = h + pairs_encoding(entries@.subrange(0, i + 1));
        let ghost ke = entries@[i as int].0.encoding();
        let ghost ve = entries@[i as int].1.encoding();
        proof {
            assert(entries@.subrange(0, i + 1).drop_last() =~= entries@.subrange(0, i as int));
            assert(next =~= done + ke + ve);
            let ip1: int = i + 1;
            lemma_pairs_prefix(entries@, ip1);
            lemma_prefix_front(h, pairs_encoding(entries@.subrange(0, ip1)), all);
        }
        let mut key = entries[i].0;
        let ghost b = *wr;
        let rk = key.write_request(wr);
        proof {
            lemma_steps_concat(a, b, *wr, rk, done, ke);
        }
        match rk {
            Ok(()) => {},
            Err(e) => {
                proof {
                    assert(prefix_of(done + ke, next)) by {
                        assert(next.subrange(0, (done + ke).len() as int) =~= done + ke);
                    }
                    lemma_prefix_trans(done + ke, next, total);
                    lemma_steps_widen(a, *wr, rk, done + ke, total);
                }
                return Err(e);
            },
        }
        let mut val = entries[i].1;
        let ghost c = *wr;
        let rv = val.write_request(wr);
        proof {
            lemma_steps_concat(a, c, *wr, rv, done + ke, ve);
        }
        match rv {
            Ok(()) => {},
            Err(e) => {
                proof {
                    lemma_steps_widen(a, *wr, rv, next, total);
                }
                return Err(e);
            },
        }
        i = i + 1;
    }
    proof {
        assert(entries@.subrange(0, i as int) =~= entries@);
    }
    Ok(())
}

} // verus!
