//! The transport session model: one exclusive encrypted byte stream with
//! a write transcript, a buffer of bytes the peer has sent, and a poison
//! flag.
//!
//! Exclusivity is the core contract.  Every operation takes the session
//! by `&mut`, so Rust's ownership discipline itself serializes cycles:
//! no second caller can write or read while one holds the borrow, and the
//! bytes of two sequential cycles can never interleave on the transcript.
//! The actual dialing, TLS and socket I/O live outside the library; they
//! feed arrived bytes in with `deliver` and carry written bytes out from
//! the transcript.
use vstd::prelude::*;
use vstd::slice::{slice_subrange, slice_to_vec};
use crate::msg::{Error, ErrorKind};

verus! {

/// One live transport session.
pub struct Session {
    transcript: Vec<u8>,
    inbound: Vec<u8>,
    poisoned: bool,
}

impl Session {
    /// Every byte ever handed to the peer, in order.
    pub closed spec fn transcript_spec(&self) -> Seq<u8> {
        self.transcript@
    }

    /// The bytes from the peer not yet consumed by a cycle.
    pub closed spec fn remaining_spec(&self) -> Seq<u8> {
        self.inbound@
    }

    /// A poisoned session refuses all further work.
    pub closed spec fn is_poisoned_spec(&self) -> bool {
        self.poisoned
    }

    /// A fresh session: nothing written, nothing received, usable.
    pub fn new() -> (s: Session)
        ensures
            s.transcript_spec() == Seq::<u8>::empty(),
            s.remaining_spec() == Seq::<u8>::empty(),
            !s.is_poisoned_spec(),
    {
        Session { transcript: Vec::new(), inbound: Vec::new(), poisoned: false }
    }

    /// Hands the session bytes that arrived from the peer.
    pub fn deliver(&mut self, bytes: &[u8])
        ensures
            final(self).transcript_spec() == old(self).transcript_spec(),
            final(self).remaining_spec() == old(self).remaining_spec() + bytes@,
            final(self).is_poisoned_spec() == old(self).is_poisoned_spec(),
    {
        self.inbound.extend_from_slice(bytes);
        proof {
            assert(self.inbound@ =~= old(self).inbound@ + bytes@);
        }
    }

    /// Writes `data` to the peer: the transcript grows by exactly those
    /// bytes, in order.  A poisoned session fails fast and writes nothing.
    pub fn write_all(&mut self, data: &[u8]) -> (r: Result<(), Error>)
        ensures
            old(self).is_poisoned_spec() ==> (r matches Err(e) && e.kind == ErrorKind::Io
                && *final(self) == *old(self)),
            !old(self).is_poisoned_spec() ==> ({
                &&& r is Ok
                &&& final(self).transcript_spec() == old(self).transcript_spec() + data@
                &&& final(self).remaining_spec() == old(self).remaining_spec()
                &&& !final(self).is_poisoned_spec()
            }),
    {
        if self.poisoned {
            return Err(Error { kind: ErrorKind::Io });
        }
        self.transcript.extend_from_slice(data);
        proof {
            assert(self.transcript@ =~= old(self).transcript@ + data@);
        }
        Ok(())
    }

    /// Reads the next chunk, at most `max` bytes.  An empty result with
    /// `max > 0` means the peer closed the stream.  A poisoned session
    /// fails fast.
    pub fn read_chunk(&mut self, max: usize) -> (r: Result<Vec<u8>, Error>)
        ensures
            old(self).is_poisoned_spec() ==> (r matches Err(e) && e.kind == ErrorKind::Io
                && *final(self) == *old(self)),
            !old(self).is_poisoned_spec() ==> ({
                let k = if max < old(self).remaining_spec().len() {
                    max as int
                } else {
                    old(self).remaining_spec().len() as int
                };
                &&& r matches Ok(c)
                &&& c@ == old(self).remaining_spec().take(k)
                &&& final(self).remaining_spec() == old(self).remaining_spec().skip(k)
                &&& final(self).transcript_spec() == old(self).transcript_spec()
                &&& !final(self).is_poisoned_spec()
            }),
    {
        if self.poisoned {
            return Err(Error { kind: ErrorKind::Io });
        }
        let k = if max < self.inbound.len() {
            max
        } else {
            self.inbound.len()
        };
        let chunk = slice_to_vec(slice_subrange(self.inbound.as_slice(), 0, k));
        let rest = slice_to_vec(slice_subrange(self.inbound.as_slice(), k, self.inbound.len()));
        self.inbound = rest;
        proof {
            assert(chunk@ =~= old(self).inbound@.take(k as int));
            assert(self.inbound@ =~= old(self).inbound@.skip(k as int));
        }
        Ok(chunk)
    }

    /// Puts bytes back at the front of the incoming buffer: a cycle that
    /// read past the end of its message returns the excess, which belongs
    /// to the next message.
    pub fn unread(&mut self, bytes: &[u8])
        ensures
            final(self).transcript_spec() == old(self).transcript_spec(),
            final(self).remaining_spec() == bytes@ + old(self).remaining_spec(),
            final(self).is_poisoned_spec() == old(self).is_poisoned_spec(),
    {
        let mut nv = slice_to_vec(bytes);
        nv.append(&mut self.inbound);
        self.inbound = nv;
    }

    /// Marks the session unusable; every later operation fails fast.
    pub fn poison(&mut self)
        ensures
            final(self).transcript_spec() == old(self).transcript_spec(),
            final(self).remaining_spec() == old(self).remaining_spec(),
            final(self).is_poisoned_spec(),
    {
        self.poisoned = true;
    }

    /// Whether the session has been poisoned.
    pub fn is_poisoned(&self) -> (r: bool)
        ensures
            r == self.is_poisoned_spec(),
    {
        self.poisoned
    }

    /// The transcript of everything written so far.
    pub fn transcript(&self) -> (r: &Vec<u8>)
        ensures
            r@ == self.transcript_spec(),
    {
        &self.transcript
    }

    /// The bytes received from the peer and not yet consumed.
    pub fn remaining(&self) -> (r: &Vec<u8>)
        ensures
            r@ == self.remaining_spec(),
    {
        &self.inbound
    }
}

} // verus!
