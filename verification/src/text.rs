use vstd::prelude::*;
use vstd::bytes::*;
use vstd::string::StrSliceExecFns;
use vstd::utf8::*;

use crate::error::Error;
use crate::reader::Reader;
use crate::writer::Writer;
use crate::Bebop;

verus! {

/// Relies on `std::str::from_utf8`: it succeeds exactly on valid UTF-8 input
/// and returns the string whose characters those bytes encode.
#[verifier::external_body]
fn utf8_to_string(bytes: &[u8]) -> (r: Result<String, Error>)
    ensures
        match r {
            Ok(s) => valid_utf8(bytes@) && s@ == decode_utf8(bytes@),
            Err(e) => !valid_utf8(bytes@) && e == Error::InvalidUtf8,
        },
{
    match std::str::from_utf8(bytes) {
        Ok(s) => Ok(String::from(s)),
        Err(_) => Err(Error::InvalidUtf8),
    }
}

impl Bebop for String {
    /// A `u32` byte length followed by that many UTF-8 bytes, no terminator.
    open spec fn wire(v: Seq<char>) -> Seq<u8> {
        spec_u32_to_le_bytes(encode_utf8(v).len() as u32) + encode_utf8(v)
    }

    open spec fn wire_ok(v: Seq<char>) -> bool {
        encode_utf8(v).len() <= u32::MAX
    }

    open spec fn dec(s: Seq<u8>) -> Result<(Seq<char>, int), Error> {
        if s.len() < 4 {
            Err(Error::UnexpectedEnd)
        } else {
            let n = spec_u32_from_le_bytes(s.take(4)) as int;
            if s.len() - 4 < n {
                Err(Error::UnexpectedEnd)
            } else {
                let bytes = s.subrange(4, 4 + n);
                if valid_utf8(bytes) {
                    Ok((decode_utf8(bytes), 4 + n))
                } else {
                    Err(Error::InvalidUtf8)
                }
            }
        }
    }

    proof fn lemma_wire_dec(v: Seq<char>, rest: Seq<u8>) {
        broadcast use encode_utf8_valid_utf8, encode_utf8_decode_utf8;

        lemma_auto_spec_u32_to_from_le_bytes();
        let b = encode_utf8(v);
        let w = Self::wire(v) + rest;
        assert(w.take(4) =~= spec_u32_to_le_bytes(b.len() as u32));
        assert(w.subrange(4, 4 + b.len() as int) =~= b);
    }

    proof fn lemma_dec_bounds(s: Seq<u8>) {
    }

    fn read_from(reader: &mut Reader) -> (r: Result<Self, Error>) {
        let ghost s = reader@;
        let n: u32 = u32::read_from(reader)?;
        let bytes = reader.read_raw(n as usize)?;
        proof {
            assert(s.skip(4).take(n as int) =~= s.subrange(4, 4 + n as int));
            assert(s.skip(4).skip(n as int) =~= s.skip(4 + n as int));
        }
        utf8_to_string(bytes)
    }

    fn write_into(&self, writer: &mut Writer) {
        let bytes = self.as_str().as_bytes_vec();
        let n = bytes.len() as u32;
        u32::write_into(&n, writer);
        writer.write_raw(bytes.as_slice());
        proof {
            assert(final(writer)@ =~= old(writer)@ + Self::wire(self.deep_view()));
        }
    }
}

} // verus!
