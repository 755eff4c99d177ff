//! A growable byte buffer that a writer appends to.
use vstd::prelude::*;

use crate::encode::RmpWrite;
use crate::errors::Error;

verus! {

/// The error of writing past the end of a buffer of fixed capacity.
#[derive(Debug)]
pub struct FixedBufCapacityOverflow {
    _priv: (),
}

impl FixedBufCapacityOverflow {
    pub fn new() -> (r: FixedBufCapacityOverflow) {
        FixedBufCapacityOverflow { _priv: () }
    }

    /// A short description of the failure.
    pub fn message(&self) -> (s: &'static str) {
        "Capacity overflow for fixed-size byte buffer"
    }
}

/// A wrapper around `Vec<u8>` that writes can only grow; writing to it never
/// fails.
#[derive(Debug, Clone, Default, PartialEq, Eq, Hash, PartialOrd, Ord)]
pub struct ByteBuf {
    bytes: Vec<u8>,
}

impl View for ByteBuf {
    type V = Seq<u8>;

    /// The bytes held.
    closed spec fn view(&self) -> Seq<u8> {
        self.bytes@
    }
}

impl ByteBuf {
    /// An empty buffer.
    pub fn new() -> (r: ByteBuf)
        ensures
            r@ == Seq::<u8>::empty(),
    {
        ByteBuf { bytes: Vec::new() }
    }

    /// An empty buffer with room for `capacity` bytes before it reallocates.
    pub fn with_capacity(capacity: usize) -> (r: ByteBuf)
        ensures
            r@ == Seq::<u8>::empty(),
    {
        ByteBuf { bytes: Vec::with_capacity(capacity) }
    }

    /// The underlying vector.
    pub fn into_vec(self) -> (v: Vec<u8>)
        ensures
            v@ == self@,
    {
        self.bytes
    }

    /// Wraps a vector; its bytes count as written.
    pub fn from_vec(bytes: Vec<u8>) -> (r: ByteBuf)
        ensures
            r@ == bytes@,
    {
        ByteBuf { bytes }
    }

    pub fn as_vec(&self) -> (v: &Vec<u8>)
        ensures
            v@ == self@,
    {
        &self.bytes
    }

    pub fn as_mut_vec(&mut self) -> (v: &mut Vec<u8>)
        ensures
            v@ == old(self)@,
            final(self)@ == final(v)@,
    {
        &mut self.bytes
    }

    pub fn as_slice(&self) -> (s: &[u8])
        ensures
            s@ == self@,
    {
        self.bytes.as_slice()
    }

    /// Appends one byte.
    pub fn write_u8(&mut self, val: u8) -> (r: Result<(), Error>)
        ensures
            r is Ok,
            final(self)@ == old(self)@.push(val),
    {
        self.bytes.push(val);
        Ok(())
    }
}

impl RmpWrite for ByteBuf {
    open spec fn written(&self) -> Seq<u8> {
        self@
    }

    open spec fn capacity(&self) -> Option<nat> {
        None
    }

    open spec fn sink_wf(&self) -> bool {
        true
    }

    fn write_bytes(&mut self, buf: &[u8]) -> (r: Result<(), Error>) {
        self.bytes.extend_from_slice(buf);
        Ok(())
    }
}

impl From<Vec<u8>> for ByteBuf {
    fn from(bytes: Vec<u8>) -> (r: ByteBuf) {
        ByteBuf { bytes }
    }
}

impl vstd::std_specs::convert::FromSpecImpl<Vec<u8>> for ByteBuf {
    open spec fn obeys_from_spec() -> bool {
        true
    }

    closed spec fn from_spec(v: Vec<u8>) -> ByteBuf {
        ByteBuf { bytes: v }
    }
}

impl From<ByteBuf> for Vec<u8> {
    fn from(buf: ByteBuf) -> (r: Vec<u8>) {
        buf.bytes
    }
}

impl vstd::std_specs::convert::FromSpecImpl<ByteBuf> for Vec<u8> {
    open spec fn obeys_from_spec() -> bool {
        true
    }

    closed spec fn from_spec(buf: ByteBuf) -> Vec<u8> {
        buf.bytes
    }
}

/// Converting between a vector and a buffer keeps the bytes, both ways.
pub proof fn lemma_from_keeps_bytes(v: Vec<u8>, b: ByteBuf)
    ensures
        <ByteBuf as vstd::std_specs::convert::FromSpec<Vec<u8>>>::from_spec(v)@ == v@,
        <Vec<u8> as vstd::std_specs::convert::FromSpec<ByteBuf>>::from_spec(b)@ == b@,
{
}

} // verus!
