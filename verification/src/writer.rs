use vstd::prelude::*;

use crate::Bebop;

verus! {

/// A growable output buffer. Every write appends at the end; the view is the
/// sequence of bytes written so far.
#[derive(Debug)]
pub struct Writer {
    bytes: Vec<u8>,
}

impl View for Writer {
    type V = Seq<u8>;

    closed spec fn view(&self) -> Seq<u8> {
        self.bytes@
    }
}

impl Writer {
    /// An empty writer.
    pub fn new() -> (r: Self)
        ensures
            r@ == Seq::<u8>::empty(),
    {
        Writer { bytes: Vec::new() }
    }

    /// Pre-allocates room for `n` more bytes; the contents are unchanged.
    pub fn reserve(&mut self, n: usize)
        ensures
            final(self)@ == old(self)@,
    {
        self.bytes.reserve(n);
    }

    /// Appends the encoding of `value`.
    pub fn write<T: Bebop>(&mut self, value: &T)
        requires
            T::wire_ok(value.deep_view()),
        ensures
            final(self)@ == old(self)@ + T::wire(value.deep_view()),
    {
        value.write_into(self)
    }

    /// Appends raw bytes as they are.
    pub fn write_raw(&mut self, bytes: &[u8])
        ensures
            final(self)@ == old(self)@ + bytes@,
    {
        self.bytes.extend_from_slice(bytes);
    }

    /// Appends one raw byte.
    pub fn push_byte(&mut self, b: u8)
        ensures
            final(self)@ == old(self)@ + seq![b],
    {
        self.bytes.push(b);
        proof {
            assert(final(self)@ =~= old(self)@ + seq![b]);
        }
    }

    /// The bytes written so far.
    pub fn bytes(&self) -> (r: &[u8])
        ensures
            r@ == self@,
    {
        self.bytes.as_slice()
    }

    /// Mutable access to the bytes written so far.
    pub fn bytes_mut(&mut self) -> (r: &mut Vec<u8>)
        ensures
            r@ == old(self)@,
            final(self)@ == final(r)@,
    {
        &mut self.bytes
    }

    /// Takes the finished buffer.
    pub fn finish(self) -> (r: Vec<u8>)
        ensures
            r@ == self@,
    {
        self.bytes
    }
}

} // verus!
