//! A shared, immutable byte region.

use std::sync::Arc;
use vstd::prelude::*;
use vstd::slice::slice_subrange;
use crate::shared::share;

verus! {

/// The tail of a shared, immutable buffer. Moving the front of the region
/// forward never copies a byte, and every clone shares the one buffer.
pub struct OwnedBytes {
    data: Arc<Vec<u8>>,
    start: usize,
}

impl Clone for OwnedBytes {
    /// Another handle on the same region.
    fn clone(&self) -> (r: OwnedBytes)
        ensures
            r == *self,
    {
        OwnedBytes { data: share(&self.data), start: self.start }
    }
}

impl View for OwnedBytes {
    type V = Seq<u8>;

    /// The bytes of the region.
    closed spec fn view(&self) -> Seq<u8> {
        if self.start <= self.data@.len() {
            self.data@.subrange(self.start as int, self.data@.len() as int)
        } else {
            Seq::empty()
        }
    }
}

impl OwnedBytes {
    /// Takes ownership of `data` as one region.
    pub fn new(data: Vec<u8>) -> (r: OwnedBytes)
        ensures
            r@ == data@,
    {
        let r = OwnedBytes { data: Arc::new(data), start: 0 };
        assert(r@ =~= data@);
        r
    }

    /// The number of bytes in the region.
    pub fn len(&self) -> (n: usize)
        ensures
            n == self@.len(),
    {
        let whole: usize = self.data.len();
        if self.start <= whole {
            whole - self.start
        } else {
            0
        }
    }

    /// The bytes of the region.
    pub fn as_slice(&self) -> (s: &[u8])
        ensures
            s@ == self@,
    {
        let whole: &[u8] = self.data.as_slice();
        let r = if self.start <= whole.len() {
            slice_subrange(whole, self.start, whole.len())
        } else {
            slice_subrange(whole, 0, 0)
        };
        assert(r@ =~= self@);
        r
    }

    /// The region without its first `n` bytes.
    pub fn advance(self, n: usize) -> (r: OwnedBytes)
        requires
            n <= self@.len(),
        ensures
            r@ == self@.subrange(n as int, self@.len() as int),
    {
        let ghost before = self@;
        let whole: usize = self.data.len();
        let r = if self.start <= whole {
            OwnedBytes { data: self.data, start: self.start + n }
        } else {
            self
        };
        assert(r@ =~= before.subrange(n as int, before.len() as int));
        r
    }
}

} // verus!
