//! Raw chunk data.

use vstd::prelude::*;

verus! {

/// A wrapper around raw chunk byte data.
///
/// `Chunk` is the input of super-feature generation and delta encoding.
#[derive(Clone, Default, PartialEq, Eq)]
pub struct Chunk {
    data: Vec<u8>,
}

impl Chunk {
    /// The bytes of the chunk.
    pub closed spec fn bytes(&self) -> Seq<u8> {
        self.data@
    }

    /// Creates a new `Chunk` from a byte vector.
    pub fn new(data: Vec<u8>) -> (r: Self)
        ensures
            r.bytes() == data@,
    {
        Chunk { data }
    }

    /// Returns the underlying byte slice.
    pub fn as_bytes(&self) -> (r: &[u8])
        ensures
            r@ == self.bytes(),
    {
        self.data.as_slice()
    }

    /// Returns the length of the chunk data in bytes.
    pub fn len(&self) -> (r: usize)
        ensures
            r == self.bytes().len(),
    {
        self.data.len()
    }

    /// Returns `true` if the chunk contains no data.
    pub fn is_empty(&self) -> (r: bool)
        ensures
            r == (self.bytes().len() == 0),
    {
        self.data.len() == 0
    }
}

} // verus!
