//! A sink over caller-owned memory of fixed capacity.
use vstd::prelude::*;

use crate::buffer::FixedBufCapacityOverflow;
use crate::encode::RmpWrite;
use crate::errors::Error;

verus! {

/// A byte buffer over a borrowed region, filled from the front. A write that
/// does not fit is refused whole.
#[derive(Debug)]
pub struct ByteBuf<'a> {
    bytes: &'a mut [u8],
    offset: usize,
}

impl<'a> View for ByteBuf<'a> {
    type V = (Seq<u8>, nat);

    /// The whole region and the number of bytes written to its front.
    closed spec fn view(&self) -> (Seq<u8>, nat) {
        (self.bytes@, self.offset as nat)
    }
}

impl<'a> ByteBuf<'a> {
    pub open spec fn wf(&self) -> bool {
        self@.1 <= self@.0.len()
    }

    /// A buffer that writes from the front of `buf`.
    pub fn new(buf: &'a mut [u8]) -> (r: ByteBuf<'a>)
        ensures
            r@ == (old(buf)@, 0nat),
            r.wf(),
    {
        ByteBuf { bytes: buf, offset: 0 }
    }

    /// How many bytes have been written.
    pub fn len(&self) -> (n: usize)
        ensures
            n == self@.1,
    {
        self.offset
    }

    /// The bytes written so far.
    pub fn as_slice(&self) -> (s: &[u8])
        requires
            self.wf(),
        ensures
            s@ == self@.0.subrange(0, self@.1 as int),
    {
        vstd::slice::slice_subrange(&*self.bytes, 0, self.offset)
    }

    /// Copies `buf` after what was written, or, where it does not fit in
    /// the room left, changes nothing and fails.
    pub fn write(&mut self, buf: &[u8]) -> (r: Result<(), FixedBufCapacityOverflow>)
        requires
            old(self).wf(),
        ensures
            final(self).wf(),
            r is Ok <==> old(self)@.1 + buf@.len() <= old(self)@.0.len(),
            r is Ok ==> final(self)@.1 == old(self)@.1 + buf@.len() && final(self)@.0
                == old(self)@.0.subrange(0, old(self)@.1 as int) + buf@ + old(self)@.0.subrange(
                (old(self)@.1 + buf@.len()) as int,
                old(self)@.0.len() as int,
            ),
            r is Err ==> final(self)@ == old(self)@,
    {
        if buf.len() <= self.bytes.len() - self.offset {
            let ghost before = self.bytes@;
            let mut i: usize = 0;
            while i < buf.len()
                invariant
                    i <= buf@.len(),
                    self.offset == old(self).offset,
                    self.offset + buf@.len() <= before.len(),
                    self.bytes@.len() == before.len(),
                    before.len() <= usize::MAX,
                    self.bytes@ == before.subrange(0, self.offset as int) + buf@.subrange(0, i as int)
                        + before.subrange(self.offset + i, before.len() as int),
                decreases buf@.len() - i,
            {
                let ghost cur = self.bytes@;
                self.bytes[self.offset + i] = buf[i];
                proof {
                    assert(self.bytes@ =~= before.subrange(0, self.offset as int) + buf@.subrange(
                        0,
                        i + 1,
                    ) + before.subrange(self.offset + i + 1, before.len() as int));
                }
                i = i + 1;
            }
            proof {
                assert(buf@.subrange(0, i as int) =~= buf@);
            }
            self.offset = self.offset + buf.len();
            Ok(())
        } else {
            Err(FixedBufCapacityOverflow::new())
        }
    }
}

impl<'a> RmpWrite for ByteBuf<'a> {
    open spec fn written(&self) -> Seq<u8> {
        self@.0.subrange(0, self@.1 as int)
    }

    open spec fn capacity(&self) -> Option<nat> {
        Some(self@.0.len())
    }

    open spec fn sink_wf(&self) -> bool {
        self.wf()
    }

    fn write_bytes(&mut self, buf: &[u8]) -> (r: Result<(), Error>) {
        match self.write(buf) {
            Ok(()) => {
                proof {
                    assert(self.written() =~= old(self).written() + buf@);
                }
                Ok(())
            },
            Err(_) => Err(Error::DataWriteError),
        }
    }
}

} // verus!
