use vstd::prelude::*;
use vstd::slice::slice_subrange;

use crate::error::Error;
use crate::Bebop;

verus! {

/// A bounds-checked cursor over an input buffer. Every read either consumes
/// a prefix of the remaining bytes or fails with `Error::UnexpectedEnd`,
/// leaving the cursor unchanged.
#[derive(Debug)]
pub struct Reader<'a> {
    bytes: &'a [u8],
}

impl<'a> View for Reader<'a> {
    type V = Seq<u8>;

    closed spec fn view(&self) -> Seq<u8> {
        self.bytes@
    }
}

impl<'a> Reader<'a> {
    /// A reader positioned at the start of `bytes`.
    pub fn new(bytes: &'a [u8]) -> (r: Self)
        ensures
            r@ == bytes@,
    {
        Reader { bytes }
    }

    /// Decodes one value of type `T` from the front of the remaining bytes.
    pub fn read<T: Bebop>(&mut self) -> (r: Result<T, Error>)
        ensures
            match T::dec(old(self)@) {
                Ok(p) => {
                    &&& r matches Ok(v) && v.deep_view() == p.0
                    &&& final(self)@ == old(self)@.skip(p.1)
                },
                Err(e) => r matches Err(a) && a == e,
            },
    {
        T::read_from(self)
    }

    /// Consumes exactly `n` raw bytes, or fails if fewer remain.
    pub fn read_raw(&mut self, n: usize) -> (r: Result<&'a [u8], Error>)
        ensures
            n <= old(self)@.len() ==> {
                &&& r matches Ok(b) && b@ == old(self)@.take(n as int)
                &&& final(self)@ == old(self)@.skip(n as int)
            },
            n > old(self)@.len() ==> {
                &&& r matches Err(e) && e == Error::UnexpectedEnd
                &&& final(self)@ == old(self)@
            },
    {
        if self.bytes.len() < n {
            return Err(Error::UnexpectedEnd);
        }
        let read = slice_subrange(self.bytes, 0, n);
        self.bytes = slice_subrange(self.bytes, n, self.bytes.len());
        Ok(read)
    }

    /// Consumes exactly `N` raw bytes, or fails if fewer remain.
    pub fn read_raw_array<const N: usize>(&mut self) -> (r: Result<&'a [u8], Error>)
        ensures
            N <= old(self)@.len() ==> {
                &&& r matches Ok(b) && b@ == old(self)@.take(N as int)
                &&& final(self)@ == old(self)@.skip(N as int)
            },
            N > old(self)@.len() ==> {
                &&& r matches Err(e) && e == Error::UnexpectedEnd
                &&& final(self)@ == old(self)@
            },
    {
        self.read_raw(N)
    }

    /// The bytes not yet consumed.
    pub fn bytes_left(&self) -> (r: &'a [u8])
        ensures
            r@ == self@,
    {
        self.bytes
    }
}

} // verus!
