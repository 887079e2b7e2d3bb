//! The opaque payload moved through the broker.

use vstd::prelude::*;

verus! {

/// An opaque, immutable application payload. The broker never interprets
/// the bytes; an external serializer produced them and a connection sink
/// transmits them verbatim. A message has no identity beyond its content.
#[derive(Debug)]
pub struct Message {
    payload: Vec<u8>,
}

impl View for Message {
    type V = Seq<u8>;

    closed spec fn view(&self) -> Seq<u8> {
        self.payload@
    }
}

impl Message {
    /// Wraps an already-serialized payload.
    pub fn new(payload: Vec<u8>) -> (m: Message)
        ensures
            m@ == payload@,
    {
        Message { payload }
    }

    /// The payload bytes, as they will be written to every target sink.
    pub fn bytes(&self) -> (r: &Vec<u8>)
        ensures
            r@ == self@,
    {
        &self.payload
    }

    /// The payload length in bytes.
    pub fn len(&self) -> (n: usize)
        ensures
            n == self@.len(),
    {
        self.payload.len()
    }

    /// A deep copy with the same content.
    pub fn duplicate(&self) -> (m: Message)
        ensures
            m@ == self@,
    {
        let copy = self.payload.clone();
        proof {
            assert(copy@ =~= self.payload@);
        }
        Message { payload: copy }
    }
}

} // verus!
