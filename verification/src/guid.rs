use vstd::prelude::*;
use vstd::bytes::*;
use vstd::slice::slice_subrange;
use vstd::string::StringExecFns;

use crate::error::Error;
use crate::reader::Reader;
use crate::writer::Writer;
use crate::Bebop;

verus! {

/// A 16-byte GUID in its canonical mixed-endian layout: one little-endian
/// `u32` group, two little-endian `u16` groups, then eight opaque bytes.
#[derive(Copy, Clone, Debug, PartialEq, Eq, PartialOrd, Ord, Default, Hash, Structural)]
pub struct Guid(
    pub u32,
    pub u16,
    pub u16,
    pub u8,
    pub u8,
    pub u8,
    pub u8,
    pub u8,
    pub u8,
    pub u8,
    pub u8,
);

impl DeepView for Guid {
    type V = Guid;

    open spec fn deep_view(&self) -> Guid {
        *self
    }
}

/// The lowercase hexadecimal digit for a value below 16.
pub open spec fn hex_char(n: u8) -> char
    recommends
        n < 16,
{
    if n == 0 {
        '0'
    } else if n == 1 {
        '1'
    } else if n == 2 {
        '2'
    } else if n == 3 {
        '3'
    } else if n == 4 {
        '4'
    } else if n == 5 {
        '5'
    } else if n == 6 {
        '6'
    } else if n == 7 {
        '7'
    } else if n == 8 {
        '8'
    } else if n == 9 {
        '9'
    } else if n == 10 {
        'a'
    } else if n == 11 {
        'b'
    } else if n == 12 {
        'c'
    } else if n == 13 {
        'd'
    } else if n == 14 {
        'e'
    } else {
        'f'
    }
}

/// The two lowercase hexadecimal digits of a byte, high digit first.
pub open spec fn hex_byte_chars(b: u8) -> Seq<char> {
    seq![hex_char(b / 16), hex_char(b % 16)]
}

/// The canonical text form of a GUID: lowercase hexadecimal grouped as
/// 8-4-4-4-12 digits with hyphens, the numeric groups printed
/// most-significant digit first.
pub open spec fn guid_text(g: Guid) -> Seq<char> {
    hex_byte_chars((g.0 >> 24) as u8) + hex_byte_chars((g.0 >> 16) as u8) + hex_byte_chars(
        (g.0 >> 8) as u8,
    ) + hex_byte_chars(g.0 as u8) + seq!['-'] + hex_byte_chars((g.1 >> 8) as u8) + hex_byte_chars(
        g.1 as u8,
    ) + seq!['-'] + hex_byte_chars((g.2 >> 8) as u8) + hex_byte_chars(g.2 as u8) + seq!['-']
        + hex_byte_chars(g.3) + hex_byte_chars(g.4) + seq!['-'] + hex_byte_chars(g.5)
        + hex_byte_chars(g.6) + hex_byte_chars(g.7) + hex_byte_chars(g.8) + hex_byte_chars(g.9)
        + hex_byte_chars(g.10)
}

/// The lowercase hexadecimal digit for a value below 16, as text.
fn hex_digit_str(n: u8) -> (r: &'static str)
    requires
        n < 16,
    ensures
        r@ == seq![hex_char(n)],
{
    proof {
        reveal_strlit("0");
        reveal_strlit("1");
        reveal_strlit("2");
        reveal_strlit("3");
        reveal_strlit("4");
        reveal_strlit("5");
        reveal_strlit("6");
        reveal_strlit("7");
        reveal_strlit("8");
        reveal_strlit("9");
        reveal_strlit("a");
        reveal_strlit("b");
        reveal_strlit("c");
        reveal_strlit("d");
        reveal_strlit("e");
        reveal_strlit("f");
    }
    match n {
        0 => "0",
        1 => "1",
        2 => "2",
        3 => "3",
        4 => "4",
        5 => "5",
        6 => "6",
        7 => "7",
        8 => "8",
        9 => "9",
        10 => "a",
        11 => "b",
        12 => "c",
        13 => "d",
        14 => "e",
        _ => "f",
    }
}

/// Appends a byte's two hexadecimal digits, high digit first.
fn push_hex_byte(out: &mut String, b: u8)
    ensures
        final(out)@ == old(out)@ + hex_byte_chars(b),
{
    out.append(hex_digit_str(b / 16));
    out.append(hex_digit_str(b % 16));
    proof {
        assert(final(out)@ =~= old(out)@ + hex_byte_chars(b));
    }
}

impl Guid {
    /// The canonical lowercase hyphenated text form of this GUID.
    pub fn to_text(&self) -> (r: String)
        ensures
            r@ == guid_text(*self),
    {
        let mut out = String::new();
        proof {
            reveal_strlit("-");
        }
        push_hex_byte(&mut out, (self.0 >> 24) as u8);
        push_hex_byte(&mut out, #[verifier::truncate] ((self.0 >> 16) as u8));
        push_hex_byte(&mut out, #[verifier::truncate] ((self.0 >> 8) as u8));
        push_hex_byte(&mut out, #[verifier::truncate] (self.0 as u8));
        out.append("-");
        push_hex_byte(&mut out, #[verifier::truncate] ((self.1 >> 8) as u8));
        push_hex_byte(&mut out, #[verifier::truncate] (self.1 as u8));
        out.append("-");
        push_hex_byte(&mut out, #[verifier::truncate] ((self.2 >> 8) as u8));
        push_hex_byte(&mut out, #[verifier::truncate] (self.2 as u8));
        out.append("-");
        push_hex_byte(&mut out, self.3);
        push_hex_byte(&mut out, self.4);
        out.append("-");
        push_hex_byte(&mut out, self.5);
        push_hex_byte(&mut out, self.6);
        push_hex_byte(&mut out, self.7);
        push_hex_byte(&mut out, self.8);
        push_hex_byte(&mut out, self.9);
        push_hex_byte(&mut out, self.10);
        proof {
            assert(out@ =~= guid_text(*self));
        }
        out
    }

    /// The GUID whose wire bytes are the given 16 bytes.
    pub fn from_bytes(bytes: &[u8]) -> (r: Guid)
        requires
            bytes@.len() == 16,
        ensures
            Self::wire(r) == bytes@,
    {
        let d0 = u32_from_le_bytes(slice_subrange(bytes, 0, 4));
        let d1 = u16_from_le_bytes(slice_subrange(bytes, 4, 6));
        let d2 = u16_from_le_bytes(slice_subrange(bytes, 6, 8));
        let r = Guid(
            d0,
            d1,
            d2,
            bytes[8],
            bytes[9],
            bytes[10],
            bytes[11],
            bytes[12],
            bytes[13],
            bytes[14],
            bytes[15],
        );
        proof {
            lemma_auto_spec_u32_to_from_le_bytes();
            lemma_auto_spec_u16_to_from_le_bytes();
            assert(Self::wire(r) =~= bytes@);
        }
        r
    }

    /// The 16 wire bytes of this GUID.
    pub fn to_bytes(&self) -> (r: Vec<u8>)
        ensures
            r@ == Self::wire(*self),
    {
        let mut writer = Writer::new();
        self.write_into(&mut writer);
        proof {
            assert(Seq::<u8>::empty() + Self::wire(*self) =~= Self::wire(*self));
        }
        writer.finish()
    }
}

impl Bebop for Guid {
    open spec fn wire(v: Guid) -> Seq<u8> {
        spec_u32_to_le_bytes(v.0) + spec_u16_to_le_bytes(v.1) + spec_u16_to_le_bytes(v.2) + seq![
            v.3,
            v.4,
            v.5,
            v.6,
            v.7,
            v.8,
            v.9,
            v.10,
        ]
    }

    open spec fn wire_ok(v: Guid) -> bool {
        true
    }

    open spec fn dec(s: Seq<u8>) -> Result<(Guid, int), Error> {
        if s.len() < 16 {
            Err(Error::UnexpectedEnd)
        } else {
            Ok(
                (
                    Guid(
                        spec_u32_from_le_bytes(s.subrange(0, 4)),
                        spec_u16_from_le_bytes(s.subrange(4, 6)),
                        spec_u16_from_le_bytes(s.subrange(6, 8)),
                        s[8],
                        s[9],
                        s[10],
                        s[11],
                        s[12],
                        s[13],
                        s[14],
                        s[15],
                    ),
                    16,
                ),
            )
        }
    }

    proof fn lemma_wire_dec(v: Guid, rest: Seq<u8>) {
        lemma_auto_spec_u32_to_from_le_bytes();
        lemma_auto_spec_u16_to_from_le_bytes();
        let w = Self::wire(v) + rest;
        assert(w.subrange(0, 4) =~= spec_u32_to_le_bytes(v.0));
        assert(w.subrange(4, 6) =~= spec_u16_to_le_bytes(v.1));
        assert(w.subrange(6, 8) =~= spec_u16_to_le_bytes(v.2));
    }

    proof fn lemma_dec_bounds(s: Seq<u8>) {
    }

    fn read_from(reader: &mut Reader) -> (r: Result<Self, Error>) {
        let b = reader.read_raw(16)?;
        let d0 = u32_from_le_bytes(slice_subrange(b, 0, 4));
        let d1 = u16_from_le_bytes(slice_subrange(b, 4, 6));
        let d2 = u16_from_le_bytes(slice_subrange(b, 6, 8));
        let g = Guid(d0, d1, d2, b[8], b[9], b[10], b[11], b[12], b[13], b[14], b[15]);
        proof {
            let s = old(reader)@;
            assert(s.take(16).subrange(0, 4) =~= s.subrange(0, 4));
            assert(s.take(16).subrange(4, 6) =~= s.subrange(4, 6));
            assert(s.take(16).subrange(6, 8) =~= s.subrange(6, 8));
        }
        Ok(g)
    }

    fn write_into(&self, writer: &mut Writer) {
        let b0 = u32_to_le_bytes(self.0);
        writer.write_raw(b0.as_slice());
        let b1 = u16_to_le_bytes(self.1);
        writer.write_raw(b1.as_slice());
        let b2 = u16_to_le_bytes(self.2);
        writer.write_raw(b2.as_slice());
        writer.push_byte(self.3);
        writer.push_byte(self.4);
        writer.push_byte(self.5);
        writer.push_byte(self.6);
        writer.push_byte(self.7);
        writer.push_byte(self.8);
        writer.push_byte(self.9);
        writer.push_byte(self.10);
        proof {
            assert(final(writer)@ =~= old(writer)@ + Self::wire(self.deep_view()));
        }
    }
}

} // verus!
