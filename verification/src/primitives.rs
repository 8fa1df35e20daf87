use vstd::prelude::*;
use vstd::bytes::*;

use crate::error::Error;
use crate::reader::Reader;
use crate::writer::Writer;
use crate::Bebop;

verus! {

impl Bebop for bool {
    open spec fn wire(v: bool) -> Seq<u8> {
        seq![if v { 1u8 } else { 0u8 }]
    }

    open spec fn wire_ok(v: bool) -> bool {
        true
    }

    open spec fn dec(s: Seq<u8>) -> Result<(bool, int), Error> {
        if s.len() < 1 {
            Err(Error::UnexpectedEnd)
        } else {
            Ok((s[0] != 0, 1))
        }
    }

    proof fn lemma_wire_dec(v: bool, rest: Seq<u8>) {
        assert((Self::wire(v) + rest)[0] == if v { 1u8 } else { 0u8 });
    }

    proof fn lemma_dec_bounds(s: Seq<u8>) {
    }

    fn read_from(reader: &mut Reader) -> (r: Result<Self, Error>) {
        let b = reader.read_raw(1)?;
        Ok(b[0] != 0)
    }

    fn write_into(&self, writer: &mut Writer) {
        writer.push_byte(if *self { 1u8 } else { 0u8 });
    }
}

impl Bebop for u8 {
    open spec fn wire(v: u8) -> Seq<u8> {
        seq![v]
    }

    open spec fn wire_ok(v: u8) -> bool {
        true
    }

    open spec fn dec(s: Seq<u8>) -> Result<(u8, int), Error> {
        if s.len() < 1 {
            Err(Error::UnexpectedEnd)
        } else {
            Ok((s[0], 1))
        }
    }

    proof fn lemma_wire_dec(v: u8, rest: Seq<u8>) {
        assert((Self::wire(v) + rest)[0] == v);
    }

    proof fn lemma_dec_bounds(s: Seq<u8>) {
    }

    fn read_from(reader: &mut Reader) -> (r: Result<Self, Error>) {
        let b = reader.read_raw(1)?;
        Ok(b[0])
    }

    fn write_into(&self, writer: &mut Writer) {
        writer.push_byte(*self);
    }
}

impl Bebop for u16 {
    open spec fn wire(v: u16) -> Seq<u8> {
        spec_u16_to_le_bytes(v)
    }

    open spec fn wire_ok(v: u16) -> bool {
        true
    }

    open spec fn dec(s: Seq<u8>) -> Result<(u16, int), Error> {
        if s.len() < 2 {
            Err(Error::UnexpectedEnd)
        } else {
            Ok((spec_u16_from_le_bytes(s.take(2)), 2))
        }
    }

    proof fn lemma_wire_dec(v: u16, rest: Seq<u8>) {
        lemma_auto_spec_u16_to_from_le_bytes();
        assert((Self::wire(v) + rest).take(2) =~= Self::wire(v));
    }

    proof fn lemma_dec_bounds(s: Seq<u8>) {
    }

    fn read_from(reader: &mut Reader) -> (r: Result<Self, Error>) {
        let b = reader.read_raw(2)?;
        Ok(u16_from_le_bytes(b))
    }

    fn write_into(&self, writer: &mut Writer) {
        let b = u16_to_le_bytes(*self);
        writer.write_raw(b.as_slice());
    }
}

impl Bebop for u32 {
    open spec fn wire(v: u32) -> Seq<u8> {
        spec_u32_to_le_bytes(v)
    }

    open spec fn wire_ok(v: u32) -> bool {
        true
    }

    open spec fn dec(s: Seq<u8>) -> Result<(u32, int), Error> {
        if s.len() < 4 {
            Err(Error::UnexpectedEnd)
        } else {
            Ok((spec_u32_from_le_bytes(s.take(4)), 4))
        }
    }

    proof fn lemma_wire_dec(v: u32, rest: Seq<u8>) {
        lemma_auto_spec_u32_to_from_le_bytes();
        assert((Self::wire(v) + rest).take(4) =~= Self::wire(v));
    }

    proof fn lemma_dec_bounds(s: Seq<u8>) {
    }

    fn read_from(reader: &mut Reader) -> (r: Result<Self, Error>) {
        proof {
            assert(old(reader)@.len() < 4 ==> Self::dec(old(reader)@) == Err::<(u32, int), Error>(
                Error::UnexpectedEnd,
            ));
        }
        let b = reader.read_raw(4)?;
        let x = u32_from_le_bytes(b);
        proof {
            assert(x == spec_u32_from_le_bytes(old(reader)@.take(4)));
            assert(Self::dec(old(reader)@) == Ok::<(u32, int), Error>((x, 4)));
        }
        Ok(x)
    }

    fn write_into(&self, writer: &mut Writer) {
        let b = u32_to_le_bytes(*self);
        writer.write_raw(b.as_slice());
    }
}

impl Bebop for u64 {
    open spec fn wire(v: u64) -> Seq<u8> {
        spec_u64_to_le_bytes(v)
    }

    open spec fn wire_ok(v: u64) -> bool {
        true
    }

    open spec fn dec(s: Seq<u8>) -> Result<(u64, int), Error> {
        if s.len() < 8 {
            Err(Error::UnexpectedEnd)
        } else {
            Ok((spec_u64_from_le_bytes(s.take(8)), 8))
        }
    }

    proof fn lemma_wire_dec(v: u64, rest: Seq<u8>) {
        lemma_auto_spec_u64_to_from_le_bytes();
        assert((Self::wire(v) + rest).take(8) =~= Self::wire(v));
    }

    proof fn lemma_dec_bounds(s: Seq<u8>) {
    }

    fn read_from(reader: &mut Reader) -> (r: Result<Self, Error>) {
        let b = reader.read_raw(8)?;
        Ok(u64_from_le_bytes(b))
    }

    fn write_into(&self, writer: &mut Writer) {
        let b = u64_to_le_bytes(*self);
        writer.write_raw(b.as_slice());
    }
}

impl Bebop for i8 {
    open spec fn wire(v: i8) -> Seq<u8> {
        seq![v as u8]
    }

    open spec fn wire_ok(v: i8) -> bool {
        true
    }

    open spec fn dec(s: Seq<u8>) -> Result<(i8, int), Error> {
        if s.len() < 1 {
            Err(Error::UnexpectedEnd)
        } else {
            Ok((s[0] as i8, 1))
        }
    }

    proof fn lemma_wire_dec(v: i8, rest: Seq<u8>) {
        assert((Self::wire(v) + rest)[0] == v as u8);
        assert((v as u8) as i8 == v) by (bit_vector);
    }

    proof fn lemma_dec_bounds(s: Seq<u8>) {
    }

    fn read_from(reader: &mut Reader) -> (r: Result<Self, Error>) {
        let b = reader.read_raw(1)?;
        Ok(#[verifier::truncate] (b[0] as i8))
    }

    fn write_into(&self, writer: &mut Writer) {
        writer.push_byte(#[verifier::truncate] (*self as u8));
    }
}

impl Bebop for i16 {
    open spec fn wire(v: i16) -> Seq<u8> {
        spec_u16_to_le_bytes(v as u16)
    }

    open spec fn wire_ok(v: i16) -> bool {
        true
    }

    open spec fn dec(s: Seq<u8>) -> Result<(i16, int), Error> {
        if s.len() < 2 {
            Err(Error::UnexpectedEnd)
        } else {
            Ok((spec_u16_from_le_bytes(s.take(2)) as i16, 2))
        }
    }

    proof fn lemma_wire_dec(v: i16, rest: Seq<u8>) {
        lemma_auto_spec_u16_to_from_le_bytes();
        assert((Self::wire(v) + rest).take(2) =~= Self::wire(v));
        assert((v as u16) as i16 == v) by (bit_vector);
    }

    proof fn lemma_dec_bounds(s: Seq<u8>) {
    }

    fn read_from(reader: &mut Reader) -> (r: Result<Self, Error>) {
        let b = reader.read_raw(2)?;
        let x = u16_from_le_bytes(b);
        Ok(#[verifier::truncate] (x as i16))
    }

    fn write_into(&self, writer: &mut Writer) {
        let b = u16_to_le_bytes(#[verifier::truncate] (*self as u16));
        writer.write_raw(b.as_slice());
    }
}

impl Bebop for i32 {
    open spec fn wire(v: i32) -> Seq<u8> {
        spec_u32_to_le_bytes(v as u32)
    }

    open spec fn wire_ok(v: i32) -> bool {
        true
    }

    open spec fn dec(s: Seq<u8>) -> Result<(i32, int), Error> {
        if s.len() < 4 {
            Err(Error::UnexpectedEnd)
        } else {
            Ok((spec_u32_from_le_bytes(s.take(4)) as i32, 4))
        }
    }

    proof fn lemma_wire_dec(v: i32, rest: Seq<u8>) {
        lemma_auto_spec_u32_to_from_le_bytes();
        assert((Self::wire(v) + rest).take(4) =~= Self::wire(v));
        assert((v as u32) as i32 == v) by (bit_vector);
    }

    proof fn lemma_dec_bounds(s: Seq<u8>) {
    }

    fn read_from(reader: &mut Reader) -> (r: Result<Self, Error>) {
        let b = reader.read_raw(4)?;
        let x = u32_from_le_bytes(b);
        Ok(#[verifier::truncate] (x as i32))
    }

    fn write_into(&self, writer: &mut Writer) {
        let b = u32_to_le_bytes(#[verifier::truncate] (*self as u32));
        writer.write_raw(b.as_slice());
    }
}

impl Bebop for i64 {
    open spec fn wire(v: i64) -> Seq<u8> {
        spec_u64_to_le_bytes(v as u64)
    }

    open spec fn wire_ok(v: i64) -> bool {
        true
    }

    open spec fn dec(s: Seq<u8>) -> Result<(i64, int), Error> {
        if s.len() < 8 {
            Err(Error::UnexpectedEnd)
        } else {
            Ok((spec_u64_from_le_bytes(s.take(8)) as i64, 8))
        }
    }

    proof fn lemma_wire_dec(v: i64, rest: Seq<u8>) {
        lemma_auto_spec_u64_to_from_le_bytes();
        assert((Self::wire(v) + rest).take(8) =~= Self::wire(v));
        assert((v as u64) as i64 == v) by (bit_vector);
    }

    proof fn lemma_dec_bounds(s: Seq<u8>) {
    }

    fn read_from(reader: &mut Reader) -> (r: Result<Self, Error>) {
        let b = reader.read_raw(8)?;
        let x = u64_from_le_bytes(b);
        Ok(#[verifier::truncate] (x as i64))
    }

    fn write_into(&self, writer: &mut Writer) {
        let b = u64_to_le_bytes(#[verifier::truncate] (*self as u64));
        writer.write_raw(b.as_slice());
    }
}

} // verus!
