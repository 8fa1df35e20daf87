use vstd::prelude::*;
use vstd::bytes::*;

use crate::error::Error;
use crate::reader::Reader;
use crate::writer::Writer;
use crate::Bebop;

verus! {

/// An opaque 64-bit tick value. The calendar epoch and the unit of a tick are
/// defined by the embedding application; the codec only moves the integer, as
/// eight little-endian bytes.
#[derive(Copy, Clone, Debug, PartialEq, Eq, PartialOrd, Ord, Default, Hash, Structural)]
pub struct Date(pub i64);

impl DeepView for Date {
    type V = Date;

    open spec fn deep_view(&self) -> Date {
        *self
    }
}

impl Bebop for Date {
    open spec fn wire(v: Date) -> Seq<u8> {
        spec_u64_to_le_bytes(v.0 as u64)
    }

    open spec fn wire_ok(v: Date) -> bool {
        true
    }

    open spec fn dec(s: Seq<u8>) -> Result<(Date, int), Error> {
        if s.len() < 8 {
            Err(Error::UnexpectedEnd)
        } else {
            Ok((Date(spec_u64_from_le_bytes(s.take(8)) as i64), 8))
        }
    }

    proof fn lemma_wire_dec(v: Date, rest: Seq<u8>) {
        lemma_auto_spec_u64_to_from_le_bytes();
        assert((Self::wire(v) + rest).take(8) =~= Self::wire(v));
        let x = v.0;
        assert((x as u64) as i64 == x) by (bit_vector);
    }

    proof fn lemma_dec_bounds(s: Seq<u8>) {
    }

    fn read_from(reader: &mut Reader) -> (r: Result<Self, Error>) {
        let b = reader.read_raw(8)?;
        let x = u64_from_le_bytes(b);
        Ok(Date(#[verifier::truncate] (x as i64)))
    }

    fn write_into(&self, writer: &mut Writer) {
        let b = u64_to_le_bytes(#[verifier::truncate] (self.0 as u64));
        writer.write_raw(b.as_slice());
    }
}

} // verus!
