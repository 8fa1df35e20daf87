//! A schema-driven binary serialization library with a verified wire codec.
//!
//! The wire format is little-endian and length-prefixed where the schema
//! demands it: strings, arrays and maps carry a `u32` size, messages and
//! unions a `u32` length frame, structs and scalars are written bare.
//! `Reader` and `Writer` move raw bytes; the `Bebop` trait ties each
//! serializable type to its exact byte layout, stated as specification
//! functions over sequences of bytes.

use vstd::prelude::*;

pub mod date;
pub mod error;
pub mod guid;
pub mod reader;
pub mod writer;
pub mod arrays;
pub mod codec;
pub mod mapper;
pub mod parse;
pub mod schema;
pub mod value;
mod primitives;
mod text;

pub use date::Date;
pub use error::EncodeError;
pub use error::Error;
pub use guid::Guid;
pub use reader::Reader;
pub use writer::Writer;

verus! {

/// A type with a fixed wire layout: `wire` is the exact byte sequence a value
/// encodes to, `dec` the exact outcome of decoding a buffer, and the two are
/// proved inverse by `lemma_wire_dec`. Values are compared through their
/// mathematical views (`DeepView`), so the contracts speak of `Seq`, integers
/// and the like rather than of heap types.
pub trait Bebop: Sized + DeepView {
    /// The bytes a value encodes to.
    spec fn wire(v: Self::V) -> Seq<u8>;

    /// Whether a value can be encoded at all: every length and element count
    /// that the wire format stores as `u32` must fit in 32 bits.
    spec fn wire_ok(v: Self::V) -> bool;

    /// The outcome of decoding the front of `s`: the decoded value and the
    /// number of bytes consumed, or the first error met.
    spec fn dec(s: Seq<u8>) -> Result<(Self::V, int), Error>;

    /// Decoding an encoding gives the value back and consumes exactly its
    /// bytes, whatever follows them.
    proof fn lemma_wire_dec(v: Self::V, rest: Seq<u8>)
        requires
            Self::wire_ok(v),
        ensures
            Self::dec(Self::wire(v) + rest) == Ok::<(Self::V, int), Error>(
                (v, Self::wire(v).len() as int),
            ),
    ;

    /// A successful decode consumes between 0 and `s.len()` bytes.
    proof fn lemma_dec_bounds(s: Seq<u8>)
        ensures
            Self::dec(s) matches Ok(p) ==> 0 <= p.1 <= s.len(),
    ;

    /// Decodes one value from the front of the reader.
    fn read_from(reader: &mut Reader) -> (r: Result<Self, Error>)
        ensures
            match Self::dec(old(reader)@) {
                Ok(p) => {
                    &&& r matches Ok(v) && v.deep_view() == p.0
                    &&& final(reader)@ == old(reader)@.skip(p.1)
                },
                Err(e) => r matches Err(a) && a == e,
            },
    ;

    /// Appends the encoding of `self` to the writer.
    fn write_into(&self, writer: &mut Writer)
        requires
            Self::wire_ok(self.deep_view()),
        ensures
            final(writer)@ == old(writer)@ + Self::wire(self.deep_view()),
    ;

    /// Decodes one value from the front of `bytes`; trailing bytes are
    /// permitted and ignored.
    fn decode(bytes: &[u8]) -> (r: Result<Self, Error>)
        ensures
            match Self::dec(bytes@) {
                Ok(p) => r matches Ok(v) && v.deep_view() == p.0,
                Err(e) => r matches Err(a) && a == e,
            },
    {
        let mut reader = Reader::new(bytes);
        Self::read_from(&mut reader)
    }

    /// The encoding of `self` as a fresh buffer.
    fn encode(&self) -> (r: Vec<u8>)
        requires
            Self::wire_ok(self.deep_view()),
        ensures
            r@ == Self::wire(self.deep_view()),
    {
        let mut writer = Writer::new();
        self.write_into(&mut writer);
        proof {
            assert(writer@ =~= Self::wire(self.deep_view()));
        }
        writer.finish()
    }
}

/// Schema metadata attached to a generated type for external dispatch; the
/// opcode is never part of the wire bytes.
pub trait Opcode {
    /// The 32-bit opcode the schema attached to this definition.
    fn opcode() -> u32;
}

/// Round-trip law: decoding the encoding of any encodable value yields that
/// value back, with exactly its bytes consumed.
pub proof fn lemma_round_trip<T: Bebop>(v: T::V)
    requires
        T::wire_ok(v),
    ensures
        T::dec(T::wire(v)) == Ok::<(T::V, int), Error>((v, T::wire(v).len() as int)),
{
    T::lemma_wire_dec(v, Seq::empty());
    assert(T::wire(v) + Seq::<u8>::empty() =~= T::wire(v));
}

} // verus!
