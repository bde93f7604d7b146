//! Where a decoder writes: a buffer that grows, or one of a fixed size.

use crate::error::{Error, Result};
use vstd::prelude::*;

verus! {

/// A decoder's output.
pub struct DecodeOut {
    bytes: Vec<u8>,
    capacity: Option<usize>,
}

impl View for DecodeOut {
    type V = Seq<u8>;

    /// The bytes written so far.
    closed spec fn view(&self) -> Seq<u8> {
        self.bytes@
    }
}

/// `len` bytes fit in an output of that capacity.
pub open spec fn fits(capacity: Option<nat>, len: nat) -> bool {
    capacity matches Some(c) ==> len <= c
}

impl DecodeOut {
    /// The most bytes that the output can hold, where it cannot grow.
    pub closed spec fn capacity(self) -> Option<nat> {
        match self.capacity {
            Some(c) => Some(c as nat),
            None => None,
        }
    }

    /// No more bytes are there than fit.
    pub open spec fn wf(self) -> bool {
        fits(self.capacity(), self@.len())
    }

    /// An output that grows, and that holds `bytes` already.
    pub fn growable(bytes: Vec<u8>) -> (r: DecodeOut)
        ensures
            r.wf(),
            r@ == bytes@,
            r.capacity() is None,
    {
        DecodeOut { bytes, capacity: None }
    }

    /// An empty output of a fixed size.
    pub fn fixed(capacity: usize) -> (r: DecodeOut)
        ensures
            r.wf(),
            r@ == Seq::<u8>::empty(),
            r.capacity() == Some(capacity as nat),
    {
        DecodeOut { bytes: Vec::new(), capacity: Some(capacity) }
    }

    /// How many bytes were written.
    pub fn len(&self) -> (r: usize)
        ensures
            r == self@.len(),
    {
        self.bytes.len()
    }

    /// The bytes written so far.
    pub fn as_slice(&self) -> (r: &[u8])
        ensures
            r@ == self@,
    {
        self.bytes.as_slice()
    }

    /// Whether the output grows.
    pub fn is_growable(&self) -> (r: bool)
        ensures
            r == (self.capacity() is None),
    {
        self.capacity.is_none()
    }

    /// The bytes, without the output around them.
    pub fn into_bytes(self) -> (r: Vec<u8>)
        ensures
            r@ == self@,
    {
        self.bytes
    }

    /// Refuses where `additional` bytes more do not fit.
    pub fn ensure_room(&self, additional: usize) -> (r: Result<()>)
        requires
            self.wf(),
        ensures
            r == (if fits(self.capacity(), self@.len() + additional as nat) {
                Ok::<(), Error>(())
            } else {
                Err::<(), Error>(Error::DstSizeTooSmall)
            }),
    {
        match self.capacity {
            Some(capacity) => {
                if additional > capacity - self.bytes.len() {
                    return Err(Error::DstSizeTooSmall);
                }
                Ok(())
            },
            None => Ok(()),
        }
    }

    /// Writes bytes. Nothing is written where not all of them fit.
    pub fn append(&mut self, bytes: &[u8]) -> (r: Result<()>)
        requires
            old(self).wf(),
        ensures
            final(self).wf(),
            final(self).capacity() == old(self).capacity(),
            if fits(old(self).capacity(), old(self)@.len() + bytes@.len()) {
                r == Ok::<(), Error>(()) && final(self)@ == old(self)@ + bytes@
            } else {
                r == Err::<(), Error>(Error::DstSizeTooSmall) && final(self)@ == old(self)@
            },
    {
        self.ensure_room(bytes.len())?;
        self.bytes.extend_from_slice(bytes);
        proof {
            assert(self@ =~= old(self)@ + bytes@);
        }
        Ok(())
    }

    /// Writes one byte that is known to fit.
    pub fn push(&mut self, byte: u8)
        requires
            old(self).wf(),
            fits(old(self).capacity(), old(self)@.len() + 1),
        ensures
            final(self).wf(),
            final(self).capacity() == old(self).capacity(),
            final(self)@ == old(self)@.push(byte),
    {
        self.bytes.push(byte);
    }

    /// Drops everything behind the first `len` bytes.
    pub fn truncate(&mut self, len: usize)
        requires
            old(self).wf(),
            len <= old(self)@.len(),
        ensures
            final(self).wf(),
            final(self).capacity() == old(self).capacity(),
            final(self)@ == old(self)@.take(len as int),
    {
        self.bytes.truncate(len);
        proof {
            assert(self@ =~= old(self)@.take(len as int));
        }
    }

    /// The byte at a place.
    pub fn byte(&self, at: usize) -> (r: u8)
        requires
            at < self@.len(),
        ensures
            r == self@[at as int],
    {
        self.bytes[at]
    }
}

} // verus!
