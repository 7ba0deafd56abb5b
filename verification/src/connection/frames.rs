//! The bytes of a connection that come in messages.

use vstd::prelude::*;
use vstd::slice::slice_subrange;
use crate::text::copy_bytes;

verus! {

/// The kinds of messages.
#[derive(Debug, Clone, Copy, PartialEq, Eq, Structural)]
pub enum FrameKind {
    /// Bytes.
    Binary,
    /// Text, of which the bytes count.
    Text,
    /// The end of the connection.
    Close,
    /// Anything else.
    Other,
}

/// What a message comes to.
#[derive(Debug, Clone, Copy, PartialEq, Eq, Structural)]
pub enum FrameStep {
    /// There are bytes to read.
    Data,
    /// The next message is awaited.
    Next,
    /// Nothing more comes.
    End,
}

/// The bytes of a message that are not read yet.
#[derive(Debug)]
pub struct FrameBuffer {
    bytes: Vec<u8>,
    cursor: usize,
}

impl View for FrameBuffer {
    type V = Seq<u8>;

    closed spec fn view(&self) -> Seq<u8> {
        self.bytes@.skip(self.cursor as int)
    }
}

impl FrameBuffer {
    #[verifier::type_invariant]
    spec fn type_inv(&self) -> bool {
        self.cursor <= self.bytes@.len()
    }

    /// Nothing is to be read.
    pub fn new() -> (r: Self)
        ensures
            r@ == Seq::<u8>::empty(),
    {
        let r = FrameBuffer { bytes: Vec::new(), cursor: 0 };
        assert(r@ =~= Seq::empty());
        r
    }

    /// Whether there are bytes to read.
    pub fn has_bytes(&self) -> (r: bool)
        ensures
            r == (self@.len() > 0),
    {
        proof {
            use_type_invariant(self);
        }
        self.cursor < self.bytes.len()
    }

    /// A message comes in: bytes and text take the place of what was there, unless they are empty.
    pub fn offer(&mut self, kind: FrameKind, payload: Vec<u8>) -> (step: FrameStep)
        ensures
            match kind {
                FrameKind::Close => step == FrameStep::End && final(self)@ == old(self)@,
                FrameKind::Other => step == FrameStep::Next && final(self)@ == old(self)@,
                _ => if payload@.len() == 0 {
                    step == FrameStep::Next && final(self)@ == old(self)@
                } else {
                    step == FrameStep::Data && final(self)@ == payload@
                },
            },
    {
        match kind {
            FrameKind::Close => FrameStep::End,
            FrameKind::Other => FrameStep::Next,
            _ => {
                if payload.len() == 0 {
                    FrameStep::Next
                } else {
                    *self = FrameBuffer { bytes: payload, cursor: 0 };
                    assert(self@ =~= payload@);
                    FrameStep::Data
                }
            },
        }
    }

    /// Reads as much as there is room for.
    pub fn take(&mut self, room: usize) -> (r: Vec<u8>)
        ensures
            r@.len() == if room < old(self)@.len() {
                room as nat
            } else {
                old(self)@.len()
            },
            r@ + final(self)@ == old(self)@,
    {
        proof {
            use_type_invariant(&*self);
        }
        let available: usize = self.bytes.len() - self.cursor;
        let n: usize = if room < available {
            room
        } else {
            available
        };
        let part = slice_subrange(self.bytes.as_slice(), self.cursor, self.cursor + n);
        let r = copy_bytes(part);
        self.cursor = self.cursor + n;
        assert(r@ + self@ =~= old(self)@);
        r
    }
}

} // verus!
