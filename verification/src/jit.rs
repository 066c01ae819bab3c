//! The JIT's machine-code writer.
//!
//! Only the byte stream lives here; turning a finished stream into an
//! executable page is host work, since it takes executable memory.

use vstd::prelude::*;

verus! {

/// An append-and-patch byte stream.
pub struct Writer {
    stream: Vec<u8>,
}

impl Writer {
    pub closed spec fn view(&self) -> Seq<u8> {
        self.stream@
    }

    /// An empty stream.
    pub fn new() -> (r: Writer)
        ensures
            r.view() == Seq::<u8>::empty(),
    {
        Writer { stream: Vec::new() }
    }

    /// Appends one byte.
    pub fn push(&mut self, b: u8)
        ensures
            final(self).view() == old(self).view().push(b),
    {
        self.stream.push(b);
    }

    /// Patches the byte at `pos`.
    pub fn set_at(&mut self, b: u8, pos: usize)
        requires
            pos < old(self).view().len(),
        ensures
            final(self).view() == old(self).view().update(pos as int, b),
    {
        self.stream.set(pos, b);
    }

    /// The first byte.
    pub fn get(&self) -> (r: u8)
        requires
            self.view().len() > 0,
        ensures
            r == self.view()[0],
    {
        self.get_at(0)
    }

    /// The byte at `pos`.
    pub fn get_at(&self, pos: usize) -> (r: u8)
        requires
            pos < self.view().len(),
        ensures
            r == self.view()[pos as int],
    {
        self.stream[pos]
    }

    /// How many bytes were written.
    pub fn len(&self) -> (r: usize)
        ensures
            r == self.view().len(),
    {
        self.stream.len()
    }
}

/// The JIT compiler's handle.  Emitting executable pages is host work;
/// the verified side only carries the writer above.
pub struct Jit;

impl Jit {
    pub fn new() -> Jit {
        Jit
    }
}

} // verus!
