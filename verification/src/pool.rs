//! Reusable byte-buffer pooling: buffers are checked out to exactly one
//! in-flight operation at a time and are cleared before reuse, so no data
//! from a prior connection ever leaks into a new one.

use vstd::prelude::*;

verus! {

/// A pool of reusable byte buffers. It grows on demand: acquiring from an
/// empty pool allocates a fresh buffer.
pub struct BufferPool {
    free: Vec<Vec<u8>>,
}

impl BufferPool {
    /// How many buffers are idle in the pool.
    pub closed spec fn available(&self) -> int {
        self.free@.len() as int
    }

    /// An empty pool.
    pub fn new() -> (r: BufferPool)
        ensures
            r.available() == 0,
    {
        BufferPool { free: Vec::new() }
    }

    /// Check a buffer out. The buffer handed out is always empty: a pooled
    /// buffer is cleared before reuse.
    pub fn acquire(&mut self) -> (r: Vec<u8>)
        ensures
            r@ == Seq::<u8>::empty(),
            final(self).available() == if old(self).available() > 0 {
                old(self).available() - 1
            } else {
                0
            },
    {
        match self.free.pop() {
            Some(mut buf) => {
                buf.clear();
                assert(buf@ =~= Seq::<u8>::empty());
                buf
            },
            None => {
                let buf: Vec<u8> = Vec::new();
                assert(buf@ =~= Seq::<u8>::empty());
                buf
            },
        }
    }

    /// Return a buffer to the pool. Whatever it held is dropped here, never
    /// handed to the next acquirer.
    pub fn release(&mut self, buf: Vec<u8>)
        ensures
            final(self).available() == old(self).available() + 1,
    {
        let mut b = buf;
        b.clear();
        self.free.push(b);
    }
}

} // verus!
