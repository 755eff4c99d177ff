//! A read-only, position-tracked cursor over a borrowed byte sequence.
use vstd::prelude::*;
use vstd::slice::slice_subrange;

verus! {

/// The value of two bytes at `i`, most significant first.
pub open spec fn be2(s: Seq<u8>, i: int) -> nat {
    (s[i] as nat) * 256 + (s[i + 1] as nat)
}

/// The value of four bytes at `i`, most significant first.
pub open spec fn be4(s: Seq<u8>, i: int) -> nat {
    be2(s, i) * 0x10000 + be2(s, i + 2)
}

/// The value of eight bytes at `i`, most significant first.
pub open spec fn be8(s: Seq<u8>, i: int) -> nat {
    be4(s, i) * 0x1_0000_0000 + be4(s, i + 4)
}

/// The unsigned big-endian value of `w` bytes at `i` (`w` is 1, 2, 4 or 8).
pub open spec fn be_uint(s: Seq<u8>, i: int, w: nat) -> nat {
    if w == 1 {
        s[i] as nat
    } else if w == 2 {
        be2(s, i)
    } else if w == 4 {
        be4(s, i)
    } else {
        be8(s, i)
    }
}

pub proof fn lemma_be2_bound(s: Seq<u8>, i: int)
    requires
        0 <= i,
        i + 2 <= s.len(),
    ensures
        be2(s, i) < 0x10000,
{
}

pub proof fn lemma_be4_bound(s: Seq<u8>, i: int)
    requires
        0 <= i,
        i + 4 <= s.len(),
    ensures
        be4(s, i) < 0x1_0000_0000,
{
    lemma_be2_bound(s, i);
    lemma_be2_bound(s, i + 2);
}

/// A read asked for more bytes than remain.
#[derive(Clone, Copy, Debug, PartialEq, Eq, Structural)]
pub struct InsufficientBytes {
    /// How many bytes the read needed.
    pub expected: usize,
    /// How many bytes were left.
    pub actual: usize,
    /// The offset at which the read was attempted.
    pub position: usize,
}

/// A cursor over borrowed bytes. Reads hand out sub-slices of the input and
/// never copy it.
#[derive(Debug)]
pub struct Bytes<'a> {
    buf: &'a [u8],
    pos: usize,
}

impl<'a> View for Bytes<'a> {
    type V = (Seq<u8>, nat);

    /// The whole input and the read offset.
    closed spec fn view(&self) -> (Seq<u8>, nat) {
        (self.buf@, self.pos as nat)
    }
}

impl<'a> Bytes<'a> {
    /// The offset never passes the end of the input.
    pub open spec fn wf(&self) -> bool {
        self@.1 <= self@.0.len()
    }

    /// The bytes not yet read.
    pub open spec fn rest(&self) -> Seq<u8> {
        self@.0.subrange(self@.1 as int, self@.0.len() as int)
    }

    /// A read of `n` bytes succeeded: the offset moved by `n`, the input stayed.
    pub open spec fn advanced(&self, before: &Self, n: nat) -> bool {
        &&& self@.0 == before@.0
        &&& self@.1 == before@.1 + n
    }

    pub fn new(buf: &'a [u8]) -> (r: Bytes<'a>)
        ensures
            r@ == (buf@, 0nat),
            r.wf(),
    {
        Bytes { buf, pos: 0 }
    }

    /// The read offset.
    pub fn position(&self) -> (p: usize)
        ensures
            p == self@.1,
    {
        self.pos
    }

    /// The bytes not yet read, without advancing.
    pub fn remaining_slice(&self) -> (s: &'a [u8])
        requires
            self.wf(),
        ensures
            s@ == self.rest(),
    {
        slice_subrange(self.buf, self.pos, self.buf.len())
    }

    /// Takes the next `n` bytes as a sub-slice of the input.
    pub fn read_exact_ref(&mut self, n: usize) -> (r: Result<&'a [u8], InsufficientBytes>)
        requires
            old(self).wf(),
        ensures
            final(self).wf(),
            r is Ok <==> n <= old(self).rest().len(),
            r is Ok ==> final(self).advanced(old(self), n as nat) && r->Ok_0@
                == old(self).rest().subrange(0, n as int),
            r is Err ==> *final(self) == *old(self) && r->Err_0 == (InsufficientBytes {
                expected: n,
                actual: old(self).rest().len() as usize,
                position: old(self)@.1 as usize,
            }),
    {
        let left = self.buf.len() - self.pos;
        if n <= left {
            let s = slice_subrange(self.buf, self.pos, self.pos + n);
            self.pos = self.pos + n;
            Ok(s)
        } else {
            Err(InsufficientBytes { expected: n, actual: left, position: self.pos })
        }
    }

    pub fn read_data_u8(&mut self) -> (r: Result<u8, InsufficientBytes>)
        requires
            old(self).wf(),
        ensures
            final(self).wf(),
            r is Ok <==> 1 <= old(self).rest().len(),
            r is Ok ==> final(self).advanced(old(self), 1) && r->Ok_0 == old(self).rest()[0],
            r is Err ==> *final(self) == *old(self),
    {
        match self.read_exact_ref(1) {
            Ok(s) => Ok(s[0]),
            Err(e) => Err(e),
        }
    }

    pub fn read_data_u16(&mut self) -> (r: Result<u16, InsufficientBytes>)
        requires
            old(self).wf(),
        ensures
            final(self).wf(),
            r is Ok <==> 2 <= old(self).rest().len(),
            r is Ok ==> final(self).advanced(old(self), 2) && r->Ok_0 == be2(old(self).rest(), 0),
            r is Err ==> *final(self) == *old(self),
    {
        match self.read_exact_ref(2) {
            Ok(s) => Ok((s[0] as u16) * 256 + s[1] as u16),
            Err(e) => Err(e),
        }
    }

    pub fn read_data_u32(&mut self) -> (r: Result<u32, InsufficientBytes>)
        requires
            old(self).wf(),
        ensures
            final(self).wf(),
            r is Ok <==> 4 <= old(self).rest().len(),
            r is Ok ==> final(self).advanced(old(self), 4) && r->Ok_0 == be4(old(self).rest(), 0),
            r is Err ==> *final(self) == *old(self),
    {
        match self.read_exact_ref(4) {
            Ok(s) => {
                let hi = (s[0] as u32) * 256 + s[1] as u32;
                let lo = (s[2] as u32) * 256 + s[3] as u32;
                Ok(hi * 0x10000 + lo)
            },
            Err(e) => Err(e),
        }
    }

    pub fn read_data_u64(&mut self) -> (r: Result<u64, InsufficientBytes>)
        requires
            old(self).wf(),
        ensures
            final(self).wf(),
            r is Ok <==> 8 <= old(self).rest().len(),
            r is Ok ==> final(self).advanced(old(self), 8) && r->Ok_0 == be8(old(self).rest(), 0),
            r is Err ==> *final(self) == *old(self),
    {
        match self.read_exact_ref(8) {
            Ok(s) => {
                let a = (s[0] as u64) * 256 + s[1] as u64;
                let b = (s[2] as u64) * 256 + s[3] as u64;
                let c = (s[4] as u64) * 256 + s[5] as u64;
                let d = (s[6] as u64) * 256 + s[7] as u64;
                let hi = a * 0x10000 + b;
                let lo = c * 0x10000 + d;
                Ok(hi * 0x1_0000_0000 + lo)
            },
            Err(e) => Err(e),
        }
    }

    pub fn read_data_i8(&mut self) -> (r: Result<i8, InsufficientBytes>)
        requires
            old(self).wf(),
        ensures
            final(self).wf(),
            r is Ok <==> 1 <= old(self).rest().len(),
            r is Ok ==> final(self).advanced(old(self), 1) && r->Ok_0 == old(self).rest()[0] as i8,
            r is Err ==> *final(self) == *old(self),
    {
        match self.read_data_u8() {
            Ok(v) => Ok(v as i8),
            Err(e) => Err(e),
        }
    }

    pub fn read_data_i16(&mut self) -> (r: Result<i16, InsufficientBytes>)
        requires
            old(self).wf(),
        ensures
            final(self).wf(),
            r is Ok <==> 2 <= old(self).rest().len(),
            r is Ok ==> final(self).advanced(old(self), 2) && r->Ok_0 == be2(old(self).rest(), 0) as i16,
            r is Err ==> *final(self) == *old(self),
    {
        match self.read_data_u16() {
            Ok(v) => Ok(v as i16),
            Err(e) => Err(e),
        }
    }

    pub fn read_data_i32(&mut self) -> (r: Result<i32, InsufficientBytes>)
        requires
            old(self).wf(),
        ensures
            final(self).wf(),
            r is Ok <==> 4 <= old(self).rest().len(),
            r is Ok ==> final(self).advanced(old(self), 4) && r->Ok_0 == be4(old(self).rest(), 0) as i32,
            r is Err ==> *final(self) == *old(self),
    {
        match self.read_data_u32() {
            Ok(v) => Ok(v as i32),
            Err(e) => Err(e),
        }
    }

    pub fn read_data_i64(&mut self) -> (r: Result<i64, InsufficientBytes>)
        requires
            old(self).wf(),
        ensures
            final(self).wf(),
            r is Ok <==> 8 <= old(self).rest().len(),
            r is Ok ==> final(self).advanced(old(self), 8) && r->Ok_0 == be8(old(self).rest(), 0) as i64,
            r is Err ==> *final(self) == *old(self),
    {
        match self.read_data_u64() {
            Ok(v) => Ok(v as i64),
            Err(e) => Err(e),
        }
    }
}

} // verus!
