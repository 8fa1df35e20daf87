use vstd::prelude::*;
use vstd::bytes::*;

use crate::date::Date;
use crate::error::{EncodeError, Error};
use crate::guid::Guid;
use crate::mapper::{height_list, height_tagged, wire_height, WireType};
use crate::mapper::{distinct_tags, lemma_height_list_member, lemma_height_tagged_member};
use crate::mapper::{lemma_wf_wire_list_index, lemma_wf_wire_tagged_index, wf_wire, wf_wire_list, wf_wire_tagged};
use crate::reader::Reader;
use crate::value::{
    conforms, conforms_choice, conforms_each, conforms_fields, conforms_opts, conforms_pairs,
    lemma_vm_opts, lemma_vm_pairs, lemma_vm_seq, vm, vm_opts, vm_pairs, vm_seq, ValModel, Value,
};
use crate::writer::Writer;
use crate::Bebop;
use vstd::string::StrSliceExecFns;

verus! {

/// The wire bytes of a conforming value: the byte layout contract of every
/// schema type, stated once for all schemas. A value that does not conform
/// to `t` encodes to nothing.
pub open spec fn enc(t: WireType, m: ValModel) -> Seq<u8>
    recommends
        conforms(t, m),
    decreases m, 0nat,
{
    match t {
        WireType::Boolean => match m {
            ValModel::Boolean(x) => bool::wire(x),
            _ => Seq::empty(),
        },
        WireType::UInt8 => match m {
            ValModel::UInt8(x) => u8::wire(x),
            _ => Seq::empty(),
        },
        WireType::Int8 => match m {
            ValModel::Int8(x) => i8::wire(x),
            _ => Seq::empty(),
        },
        WireType::UInt16 => match m {
            ValModel::UInt16(x) => u16::wire(x),
            _ => Seq::empty(),
        },
        WireType::Int16 => match m {
            ValModel::Int16(x) => i16::wire(x),
            _ => Seq::empty(),
        },
        WireType::UInt32 => match m {
            ValModel::UInt32(x) => u32::wire(x),
            _ => Seq::empty(),
        },
        WireType::Int32 => match m {
            ValModel::Int32(x) => i32::wire(x),
            _ => Seq::empty(),
        },
        WireType::UInt64 => match m {
            ValModel::UInt64(x) => u64::wire(x),
            _ => Seq::empty(),
        },
        WireType::Int64 => match m {
            ValModel::Int64(x) => i64::wire(x),
            _ => Seq::empty(),
        },
        WireType::Float32 => match m {
            ValModel::Float32Bits(x) => u32::wire(x),
            _ => Seq::empty(),
        },
        WireType::Float64 => match m {
            ValModel::Float64Bits(x) => u64::wire(x),
            _ => Seq::empty(),
        },
        WireType::Text => match m {
            ValModel::Text(s) => String::wire(s),
            _ => Seq::empty(),
        },
        WireType::GuidType => match m {
            ValModel::GuidVal(g) => Guid::wire(g),
            _ => Seq::empty(),
        },
        WireType::DateType => match m {
            ValModel::DateVal(d) => Date::wire(d),
            _ => Seq::empty(),
        },
        WireType::List(e) => match m {
            ValModel::List(ms) => spec_u32_to_le_bytes(ms.len() as u32) + enc_each(*e, ms),
            _ => Seq::empty(),
        },
        WireType::Assoc(kt, vt) => match m {
            ValModel::Assoc(ps) => spec_u32_to_le_bytes(ps.len() as u32) + enc_pairs(
                *kt,
                *vt,
                ps,
            ),
            _ => Seq::empty(),
        },
        WireType::Record(ts) => match m {
            ValModel::Record(ms) => enc_fields(ts@, ms),
            _ => Seq::empty(),
        },
        WireType::Message(fs) => match m {
            ValModel::MessageVal(os) => {
                let body = enc_opts(fs@, os) + seq![0u8];
                spec_u32_to_le_bytes(body.len() as u32) + body
            },
            _ => Seq::empty(),
        },
        WireType::Choice(fs) => match m {
            ValModel::ChoiceVal(tag, p) => {
                let pe = enc_choice(fs@, tag, *p);
                spec_u32_to_le_bytes((pe.len() + 1) as u32) + seq![tag] + pe
            },
            _ => Seq::empty(),
        },
        WireType::Discrim(_) => match m {
            ValModel::EnumVal(x) => u32::wire(x),
            _ => Seq::empty(),
        },
    }
}

/// The concatenated encodings of array elements.
pub open spec fn enc_each(e: WireType, ms: Seq<ValModel>) -> Seq<u8>
    decreases ms, 0nat,
{
    if ms.len() == 0 {
        Seq::empty()
    } else {
        enc(e, ms[0]) + enc_each(e, ms.subrange(1, ms.len() as int))
    }
}

/// The concatenated encodings of map entries, key then value.
pub open spec fn enc_pairs(kt: WireType, vt: WireType, ps: Seq<(ValModel, ValModel)>) -> Seq<u8>
    decreases ps, 0nat,
{
    if ps.len() == 0 {
        Seq::empty()
    } else {
        enc(kt, ps[0].0) + enc(vt, ps[0].1) + enc_pairs(kt, vt, ps.subrange(1, ps.len() as int))
    }
}

/// The concatenated encodings of struct fields, in declared order, bare.
pub open spec fn enc_fields(ts: Seq<WireType>, ms: Seq<ValModel>) -> Seq<u8>
    decreases ms, 0nat,
{
    if ms.len() == 0 || ts.len() == 0 {
        Seq::empty()
    } else {
        enc(ts[0], ms[0]) + enc_fields(ts.subrange(1, ts.len() as int), ms.subrange(1, ms.len() as int))
    }
}

/// The message body before its terminator: for each present field, its tag
/// byte and its encoding, in declared order.
pub open spec fn enc_opts(fs: Seq<(u8, WireType)>, os: Seq<Option<ValModel>>) -> Seq<u8>
    decreases os, 0nat,
{
    if os.len() == 0 || fs.len() == 0 {
        Seq::empty()
    } else {
        (match os[0] {
            Some(m) => seq![fs[0].0] + enc(fs[0].1, m),
            None => Seq::empty(),
        }) + enc_opts(fs.subrange(1, fs.len() as int), os.subrange(1, os.len() as int))
    }
}

/// The payload encoding of a union value: the first declared variant with
/// the value's tag encodes the payload.
pub open spec fn enc_choice(fs: Seq<(u8, WireType)>, tag: u8, p: ValModel) -> Seq<u8>
    decreases p, fs.len() + 1,
{
    if fs.len() == 0 {
        Seq::empty()
    } else if fs[0].0 == tag {
        enc(fs[0].1, p)
    } else {
        enc_choice(fs.subrange(1, fs.len() as int), tag, p)
    }
}

/// Whether a conforming value can be encoded: every count and length the
/// wire stores as `u32` fits 32 bits. Encoding fails exactly when this does
/// not hold.
pub open spec fn enc_ok(t: WireType, m: ValModel) -> bool
    decreases m, 0nat,
{
    match t {
        WireType::Text => match m {
            ValModel::Text(s) => String::wire_ok(s),
            _ => true,
        },
        WireType::List(e) => match m {
            ValModel::List(ms) => ms.len() <= u32::MAX && enc_ok_each(*e, ms),
            _ => true,
        },
        WireType::Assoc(kt, vt) => match m {
            ValModel::Assoc(ps) => ps.len() <= u32::MAX && enc_ok_pairs(*kt, *vt, ps),
            _ => true,
        },
        WireType::Record(ts) => match m {
            ValModel::Record(ms) => enc_ok_fields(ts@, ms),
            _ => true,
        },
        WireType::Message(fs) => match m {
            ValModel::MessageVal(os) => enc_ok_opts(fs@, os) && enc_opts(fs@, os).len() + 1
                <= u32::MAX,
            _ => true,
        },
        WireType::Choice(fs) => match m {
            ValModel::ChoiceVal(tag, p) => enc_ok_choice(fs@, tag, *p) && enc_choice(
                fs@,
                tag,
                *p,
            ).len() + 1 <= u32::MAX,
            _ => true,
        },
        _ => true,
    }
}

/// Every element can be encoded.
pub open spec fn enc_ok_each(e: WireType, ms: Seq<ValModel>) -> bool
    decreases ms, 0nat,
{
    ms.len() == 0 || (enc_ok(e, ms[0]) && enc_ok_each(e, ms.subrange(1, ms.len() as int)))
}

/// Every key and value can be encoded.
pub open spec fn enc_ok_pairs(kt: WireType, vt: WireType, ps: Seq<(ValModel, ValModel)>) -> bool
    decreases ps, 0nat,
{
    ps.len() == 0 || (enc_ok(kt, ps[0].0) && enc_ok(vt, ps[0].1) && enc_ok_pairs(
        kt,
        vt,
        ps.subrange(1, ps.len() as int),
    ))
}

/// Every field value can be encoded.
pub open spec fn enc_ok_fields(ts: Seq<WireType>, ms: Seq<ValModel>) -> bool
    decreases ms, 0nat,
{
    ms.len() == 0 || ts.len() == 0 || (enc_ok(ts[0], ms[0]) && enc_ok_fields(
        ts.subrange(1, ts.len() as int),
        ms.subrange(1, ms.len() as int),
    ))
}

/// Every present field value can be encoded.
pub open spec fn enc_ok_opts(fs: Seq<(u8, WireType)>, os: Seq<Option<ValModel>>) -> bool
    decreases os, 0nat,
{
    os.len() == 0 || fs.len() == 0 || ((match os[0] {
        Some(m) => enc_ok(fs[0].1, m),
        None => true,
    }) && enc_ok_opts(fs.subrange(1, fs.len() as int), os.subrange(1, os.len() as int)))
}

/// The payload of a union value can be encoded.
pub open spec fn enc_ok_choice(fs: Seq<(u8, WireType)>, tag: u8, p: ValModel) -> bool
    decreases p, fs.len() + 1,
{
    if fs.len() == 0 {
        true
    } else if fs[0].0 == tag {
        enc_ok(fs[0].1, p)
    } else {
        enc_ok_choice(fs.subrange(1, fs.len() as int), tag, p)
    }
}

/// The outcome of decoding a value of type `t` from the front of `s`: the
/// value and the bytes consumed, or the first error. This is the exact wire
/// contract of every construct, error taxonomy included: short input fails
/// with `UnexpectedEnd`, an undeclared discriminant with
/// `UnknownEnumValue`, an undeclared union tag with `UnknownUnionTag`, bad
/// string bytes with `InvalidUtf8`.
pub open spec fn dec(t: WireType, s: Seq<u8>) -> Result<(ValModel, int), Error>
    decreases wire_height(t), 0nat, 0nat,
{
    match t {
        WireType::Boolean => match bool::dec(s) {
            Ok(p) => Ok((ValModel::Boolean(p.0), p.1)),
            Err(e) => Err(e),
        },
        WireType::UInt8 => match u8::dec(s) {
            Ok(p) => Ok((ValModel::UInt8(p.0), p.1)),
            Err(e) => Err(e),
        },
        WireType::Int8 => match i8::dec(s) {
            Ok(p) => Ok((ValModel::Int8(p.0), p.1)),
            Err(e) => Err(e),
        },
        WireType::UInt16 => match u16::dec(s) {
            Ok(p) => Ok((ValModel::UInt16(p.0), p.1)),
            Err(e) => Err(e),
        },
        WireType::Int16 => match i16::dec(s) {
            Ok(p) => Ok((ValModel::Int16(p.0), p.1)),
            Err(e) => Err(e),
        },
        WireType::UInt32 => match u32::dec(s) {
            Ok(p) => Ok((ValModel::UInt32(p.0), p.1)),
            Err(e) => Err(e),
        },
        WireType::Int32 => match i32::dec(s) {
            Ok(p) => Ok((ValModel::Int32(p.0), p.1)),
            Err(e) => Err(e),
        },
        WireType::UInt64 => match u64::dec(s) {
            Ok(p) => Ok((ValModel::UInt64(p.0), p.1)),
            Err(e) => Err(e),
        },
        WireType::Int64 => match i64::dec(s) {
            Ok(p) => Ok((ValModel::Int64(p.0), p.1)),
            Err(e) => Err(e),
        },
        WireType::Float32 => match u32::dec(s) {
            Ok(p) => Ok((ValModel::Float32Bits(p.0), p.1)),
            Err(e) => Err(e),
        },
        WireType::Float64 => match u64::dec(s) {
            Ok(p) => Ok((ValModel::Float64Bits(p.0), p.1)),
            Err(e) => Err(e),
        },
        WireType::Text => match String::dec(s) {
            Ok(p) => Ok((ValModel::Text(p.0), p.1)),
            Err(e) => Err(e),
        },
        WireType::GuidType => match Guid::dec(s) {
            Ok(p) => Ok((ValModel::GuidVal(p.0), p.1)),
            Err(e) => Err(e),
        },
        WireType::DateType => match Date::dec(s) {
            Ok(p) => Ok((ValModel::DateVal(p.0), p.1)),
            Err(e) => Err(e),
        },
        WireType::List(e) => match u32::dec(s) {
            Err(e2) => Err(e2),
            Ok(p) => match dec_each(*e, p.0 as nat, s.skip(4)) {
                Err(e2) => Err(e2),
                Ok(q) => Ok((ValModel::List(q.0), 4 + q.1)),
            },
        },
        WireType::Assoc(kt, vt) => match u32::dec(s) {
            Err(e2) => Err(e2),
            Ok(p) => match dec_pairs(*kt, *vt, p.0 as nat, s.skip(4)) {
                Err(e2) => Err(e2),
                Ok(q) => Ok((ValModel::Assoc(q.0), 4 + q.1)),
            },
        },
        WireType::Record(ts) => match dec_fields(ts@, s) {
            Err(e2) => Err(e2),
            Ok(q) => Ok((ValModel::Record(q.0), q.1)),
        },
        WireType::Message(fs) => match u32::dec(s) {
            Err(e2) => Err(e2),
            Ok(p) => if s.len() - 4 < p.0 {
                Err(Error::UnexpectedEnd)
            } else {
                let body = s.subrange(4, 4 + p.0 as int);
                match dec_msg(fs@, body, Seq::new(fs@.len(), |i: int| None::<ValModel>)) {
                    Err(e2) => Err(e2),
                    Ok(os) => Ok((ValModel::MessageVal(os), 4 + p.0 as int)),
                }
            },
        },
        WireType::Choice(fs) => match u32::dec(s) {
            Err(e2) => Err(e2),
            Ok(p) => if s.len() - 4 < p.0 {
                Err(Error::UnexpectedEnd)
            } else {
                let body = s.subrange(4, 4 + p.0 as int);
                if body.len() < 1 {
                    Err(Error::UnexpectedEnd)
                } else {
                    match dec_tagged(fs@, body[0], body.subrange(1, body.len() as int)) {
                        None => Err(Error::UnknownUnionTag),
                        Some(q) => match q.1 {
                            Err(e2) => Err(e2),
                            Ok(r) => Ok(
                                (ValModel::ChoiceVal(body[0], Box::new(r.0)), 4 + p.0 as int),
                            ),
                        },
                    }
                }
            },
        },
        WireType::Discrim(vals) => match u32::dec(s) {
            Err(e2) => Err(e2),
            Ok(p) => if vals@.contains(p.0) {
                Ok((ValModel::EnumVal(p.0), 4))
            } else {
                Err(Error::UnknownEnumValue)
            },
        },
    }
}

/// Decodes `n` consecutive array elements.
pub open spec fn dec_each(e: WireType, n: nat, s: Seq<u8>) -> Result<(Seq<ValModel>, int), Error>
    decreases wire_height(e) + 1, n, 0nat,
{
    if n == 0 {
        Ok((Seq::empty(), 0))
    } else {
        match dec(e, s) {
            Err(e2) => Err(e2),
            Ok(p) => match dec_each(e, (n - 1) as nat, s.skip(p.1)) {
                Err(e2) => Err(e2),
                Ok(q) => Ok((seq![p.0] + q.0, p.1 + q.1)),
            },
        }
    }
}

/// Decodes `n` consecutive key-value pairs.
pub open spec fn dec_pairs(kt: WireType, vt: WireType, n: nat, s: Seq<u8>) -> Result<
    (Seq<(ValModel, ValModel)>, int),
    Error,
>
    decreases wire_height(kt) + wire_height(vt) + 1, n, 0nat,
{
    if n == 0 {
        Ok((Seq::empty(), 0))
    } else {
        match dec(kt, s) {
            Err(e2) => Err(e2),
            Ok(p) => match dec(vt, s.skip(p.1)) {
                Err(e2) => Err(e2),
                Ok(q) => match dec_pairs(kt, vt, (n - 1) as nat, s.skip(p.1 + q.1)) {
                    Err(e2) => Err(e2),
                    Ok(r) => Ok((seq![(p.0, q.0)] + r.0, p.1 + q.1 + r.1)),
                },
            },
        }
    }
}

/// Decodes struct fields one after the other; the first failure aborts.
pub open spec fn dec_fields(ts: Seq<WireType>, s: Seq<u8>) -> Result<(Seq<ValModel>, int), Error>
    decreases height_list(ts), 0nat, 0nat,
{
    if ts.len() == 0 {
        Ok((Seq::empty(), 0))
    } else {
        match dec(ts[0], s) {
            Err(e2) => Err(e2),
            Ok(p) => match dec_fields(ts.subrange(1, ts.len() as int), s.skip(p.1)) {
                Err(e2) => Err(e2),
                Ok(q) => Ok((seq![p.0] + q.0, p.1 + q.1)),
            },
        }
    }
}

/// Decodes the field a tag names: the first declared field carrying `tag`,
/// with its position, or `None` when no declared field carries it.
pub open spec fn dec_tagged(fs: Seq<(u8, WireType)>, tag: u8, s: Seq<u8>) -> Option<
    (int, Result<(ValModel, int), Error>),
>
    decreases height_tagged(fs), 0nat, 0nat,
{
    if fs.len() == 0 {
        None
    } else if fs[0].0 == tag {
        Some((0, dec(fs[0].1, s)))
    } else {
        match dec_tagged(fs.subrange(1, fs.len() as int), tag, s) {
            None => None,
            Some(q) => Some((q.0 + 1, q.1)),
        }
    }
}

/// Decodes a message body: reads one tag byte at a time. Tag 0 ends the body
/// normally; a declared tag stores that field's value; an undeclared tag
/// stops parsing the rest of the body entirely — later fields, declared or
/// not, are dropped, because per-field lengths do not exist and nothing can
/// be skipped.
pub open spec fn dec_msg(
    fs: Seq<(u8, WireType)>,
    body: Seq<u8>,
    acc: Seq<Option<ValModel>>,
) -> Result<Seq<Option<ValModel>>, Error>
    decreases height_tagged(fs) + 1, body.len(), 0nat,
{
    if body.len() == 0 {
        Err(Error::UnexpectedEnd)
    } else if body[0] == 0 {
        Ok(acc)
    } else {
        match dec_tagged(fs, body[0], body.subrange(1, body.len() as int)) {
            None => Ok(acc),
            Some(q) => match q.1 {
                Err(e2) => Err(e2),
                Ok(p) => if 0 <= p.1 && 1 + p.1 <= body.len() {
                    dec_msg(
                        fs,
                        body.subrange(1 + p.1, body.len() as int),
                        acc.update(q.0, Some(p.0)),
                    )
                } else {
                    Err(Error::UnexpectedEnd)
                },
            },
        }
    }
}

/// A successful decode consumes between 0 and `s.len()` bytes.
pub proof fn lemma_dec_bounds(t: WireType, s: Seq<u8>)
    ensures
        dec(t, s) matches Ok(p) ==> 0 <= p.1 <= s.len(),
    decreases wire_height(t), 0nat, 0nat,
{
    match t {
        WireType::Boolean => bool::lemma_dec_bounds(s),
        WireType::UInt8 => u8::lemma_dec_bounds(s),
        WireType::Int8 => i8::lemma_dec_bounds(s),
        WireType::UInt16 => u16::lemma_dec_bounds(s),
        WireType::Int16 => i16::lemma_dec_bounds(s),
        WireType::UInt32 => u32::lemma_dec_bounds(s),
        WireType::Int32 => i32::lemma_dec_bounds(s),
        WireType::UInt64 => u64::lemma_dec_bounds(s),
        WireType::Int64 => i64::lemma_dec_bounds(s),
        WireType::Float32 => u32::lemma_dec_bounds(s),
        WireType::Float64 => u64::lemma_dec_bounds(s),
        WireType::Text => String::lemma_dec_bounds(s),
        WireType::GuidType => Guid::lemma_dec_bounds(s),
        WireType::DateType => Date::lemma_dec_bounds(s),
        WireType::List(e) => {
            if u32::dec(s) is Ok {
                lemma_dec_each_bounds(*e, u32::dec(s)->Ok_0.0 as nat, s.skip(4));
            }
        },
        WireType::Assoc(kt, vt) => {
            if u32::dec(s) is Ok {
                lemma_dec_pairs_bounds(*kt, *vt, u32::dec(s)->Ok_0.0 as nat, s.skip(4));
            }
        },
        WireType::Record(ts) => lemma_dec_fields_bounds(ts@, s),
        WireType::Message(_) => {},
        WireType::Choice(_) => {},
        WireType::Discrim(_) => {},
    }
}

/// A successful element decode consumes between 0 and `s.len()` bytes.
pub proof fn lemma_dec_each_bounds(e: WireType, n: nat, s: Seq<u8>)
    ensures
        dec_each(e, n, s) matches Ok(p) ==> 0 <= p.1 <= s.len(),
    decreases wire_height(e) + 1, n, 0nat,
{
    if n > 0 {
        lemma_dec_bounds(e, s);
        let r = dec(e, s);
        if r is Ok {
            lemma_dec_each_bounds(e, (n - 1) as nat, s.skip(r->Ok_0.1));
        }
    }
}

/// A successful pair decode consumes between 0 and `s.len()` bytes.
pub proof fn lemma_dec_pairs_bounds(kt: WireType, vt: WireType, n: nat, s: Seq<u8>)
    ensures
        dec_pairs(kt, vt, n, s) matches Ok(p) ==> 0 <= p.1 <= s.len(),
    decreases wire_height(kt) + wire_height(vt) + 1, n, 0nat,
{
    if n > 0 {
        lemma_dec_bounds(kt, s);
        let r = dec(kt, s);
        if r is Ok {
            let ck = r->Ok_0.1;
            lemma_dec_bounds(vt, s.skip(ck));
            let r2 = dec(vt, s.skip(ck));
            if r2 is Ok {
                let cv = r2->Ok_0.1;
                lemma_dec_pairs_bounds(kt, vt, (n - 1) as nat, s.skip(ck + cv));
            }
        }
    }
}

/// A successful field-sequence decode consumes between 0 and `s.len()`
/// bytes.
pub proof fn lemma_dec_fields_bounds(ts: Seq<WireType>, s: Seq<u8>)
    ensures
        dec_fields(ts, s) matches Ok(p) ==> 0 <= p.1 <= s.len(),
    decreases height_list(ts), 0nat, 0nat,
{
    if ts.len() > 0 {
        lemma_dec_bounds(ts[0], s);
        let r = dec(ts[0], s);
        if r is Ok {
            lemma_dec_fields_bounds(ts.subrange(1, ts.len() as int), s.skip(r->Ok_0.1));
        }
    }
}

/// When position `k` holds the first field with the given tag, the tagged
/// decode picks exactly that field.
pub proof fn lemma_dec_tagged_at(fs: Seq<(u8, WireType)>, tag: u8, s: Seq<u8>, k: int)
    requires
        0 <= k < fs.len(),
        fs[k].0 == tag,
        forall|j: int| 0 <= j < k ==> (#[trigger] fs[j].0) != tag,
    ensures
        dec_tagged(fs, tag, s) == Some((k, dec(fs[k].1, s))),
    decreases fs,
{
    if k > 0 {
        let sub = fs.subrange(1, fs.len() as int);
        assert forall|j: int| 0 <= j < k - 1 implies (#[trigger] sub[j].0) != tag by {
            assert(sub[j] == fs[j + 1]);
        }
        lemma_dec_tagged_at(sub, tag, s, k - 1);
        assert(sub[k - 1] == fs[k]);
    }
}

/// When no field carries the tag, the tagged decode finds nothing.
pub proof fn lemma_dec_tagged_none(fs: Seq<(u8, WireType)>, tag: u8, s: Seq<u8>)
    requires
        forall|j: int| 0 <= j < fs.len() ==> (#[trigger] fs[j].0) != tag,
    ensures
        dec_tagged(fs, tag, s) is None,
    decreases fs,
{
    if fs.len() > 0 {
        let sub = fs.subrange(1, fs.len() as int);
        assert forall|j: int| 0 <= j < sub.len() implies (#[trigger] sub[j].0) != tag by {
            assert(sub[j] == fs[j + 1]);
        }
        lemma_dec_tagged_none(sub, tag, s);
    }
}

/// Whether some declared discriminant equals `x`.
fn vals_contains(vals: &Vec<u32>, x: u32) -> (r: bool)
    ensures
        r == vals@.contains(x),
{
    let mut i: usize = 0;
    while i < vals.len()
        invariant
            0 <= i <= vals@.len(),
            forall|k: int| 0 <= k < i ==> vals@[k] != x,
        decreases vals@.len() - i,
    {
        if vals[i] == x {
            assert(vals@.contains(x));
            return true;
        }
        i = i + 1;
    }
    assert(!vals@.contains(x));
    false
}

/// The position of the first declared field with the given tag, or the
/// length when none carries it.
fn find_tag(fs: &Vec<(u8, WireType)>, tag: u8) -> (r: usize)
    ensures
        0 <= r <= fs@.len(),
        r < fs@.len() ==> fs@[r as int].0 == tag,
        forall|j: int| 0 <= j < r ==> (#[trigger] fs@[j].0) != tag,
{
    let mut i: usize = 0;
    while i < fs.len()
        invariant
            0 <= i <= fs@.len(),
            forall|j: int| 0 <= j < i ==> (#[trigger] fs@[j].0) != tag,
        decreases fs@.len() - i,
    {
        if fs[i].0 == tag {
            return i;
        }
        i = i + 1;
    }
    i
}


/// Reads a `u32` count and that many elements of type `e`.
fn read_list(e: &WireType, reader: &mut Reader) -> (r: Result<Vec<Value>, Error>)
    ensures
        match u32::dec(old(reader)@) {
            Err(e2) => r matches Err(a) && a == e2,
            Ok(p) => match dec_each(*e, p.0 as nat, old(reader)@.skip(4)) {
                Err(e2) => r matches Err(a) && a == e2,
                Ok(q) => {
                    &&& r matches Ok(vs) && vm_seq(vs@) == q.0
                    &&& final(reader)@ == old(reader)@.skip(4).skip(q.1)
                },
            },
        },
    decreases wire_height(*e) + 1,
{
    let ghost s0 = reader@;
    let ghost et = *e;
    let n: u32 = u32::read_from(reader)?;
    let ghost s4 = s0.skip(4);
    let mut out: Vec<Value> = Vec::new();
    let mut i: u32 = 0;
    let ghost mut done: int = 0;
    proof {
        assert(s4.skip(0) =~= s4);
        assert(vm_seq(out@) =~= Seq::<ValModel>::empty());
        let r0 = dec_each(et, n as nat, s4);
        if r0 is Ok {
            assert(Seq::<ValModel>::empty() + r0->Ok_0.0 =~= r0->Ok_0.0);
        }
    }
    while i < n
        invariant
            s0 == old(reader)@,
            et == *e,
            s4 == s0.skip(4),
            s0.len() >= 4,
            n == spec_u32_from_le_bytes(s0.take(4)),
            0 <= i <= n,
            0 <= done <= s4.len(),
            reader@ == s4.skip(done),
            dec_each(et, n as nat, s4) == (match dec_each(et, (n - i) as nat, s4.skip(done)) {
                Err(e2) => Err::<(Seq<ValModel>, int), Error>(e2),
                Ok(q) => Ok::<(Seq<ValModel>, int), Error>((vm_seq(out@) + q.0, done + q.1)),
            }),
        decreases n - i,
    {
        let ghost cur = reader@;
        let ghost dv0 = vm_seq(out@);
        match read_value(e, reader) {
            Err(e2) => {
                return Err(e2);
            },
            Ok(x) => {
                proof {
                    lemma_dec_bounds(et, cur);
                    let c = dec(et, cur)->Ok_0.1;
                    assert(s4.skip(done).skip(c) =~= s4.skip(done + c));
                    done = done + c;
                }
                let ghost prev = out@;
                out.push(x);
                proof {
                    assert(prev =~= out@.drop_last());
                    lemma_vm_seq(out@);
                    lemma_vm_seq(prev);
                    assert(vm_seq(out@) =~= dv0 + seq![vm(x)]);
                    let rr = dec_each(et, (n - i - 1) as nat, s4.skip(done));
                    if rr is Ok {
                        assert(dv0 + (seq![vm(x)] + rr->Ok_0.0) =~= vm_seq(out@) + rr->Ok_0.0);
                    }
                }
                i = i + 1;
            },
        }
    }
    proof {
        assert(vm_seq(out@) + Seq::<ValModel>::empty() =~= vm_seq(out@));
    }
    Ok(out)
}

/// Reads a `u32` count and that many key-value pairs.
#[verifier::rlimit(50)]
fn read_assoc(kt: &WireType, vt: &WireType, reader: &mut Reader) -> (r: Result<
    Vec<(Value, Value)>,
    Error,
>)
    ensures
        match u32::dec(old(reader)@) {
            Err(e2) => r matches Err(a) && a == e2,
            Ok(p) => match dec_pairs(*kt, *vt, p.0 as nat, old(reader)@.skip(4)) {
                Err(e2) => r matches Err(a) && a == e2,
                Ok(q) => {
                    &&& r matches Ok(ps) && vm_pairs(ps@) == q.0
                    &&& final(reader)@ == old(reader)@.skip(4).skip(q.1)
                },
            },
        },
    decreases wire_height(*kt) + wire_height(*vt) + 1,
{
    let ghost s0 = reader@;
    let ghost ktt = *kt;
    let ghost vtt = *vt;
    let n: u32 = u32::read_from(reader)?;
    let ghost s4 = s0.skip(4);
    let mut out: Vec<(Value, Value)> = Vec::new();
    let mut i: u32 = 0;
    let ghost mut done: int = 0;
    proof {
        assert(s4.skip(0) =~= s4);
        assert(vm_pairs(out@) =~= Seq::<(ValModel, ValModel)>::empty());
        let r0 = dec_pairs(ktt, vtt, n as nat, s4);
        if r0 is Ok {
            assert(Seq::<(ValModel, ValModel)>::empty() + r0->Ok_0.0 =~= r0->Ok_0.0);
        }
    }
    while i < n
        invariant
            s0 == old(reader)@,
            ktt == *kt,
            vtt == *vt,
            s4 == s0.skip(4),
            s0.len() >= 4,
            n == spec_u32_from_le_bytes(s0.take(4)),
            0 <= i <= n,
            0 <= done <= s4.len(),
            reader@ == s4.skip(done),
            dec_pairs(ktt, vtt, n as nat, s4) == (match dec_pairs(
                ktt,
                vtt,
                (n - i) as nat,
                s4.skip(done),
            ) {
                Err(e2) => Err::<(Seq<(ValModel, ValModel)>, int), Error>(e2),
                Ok(q) => Ok::<(Seq<(ValModel, ValModel)>, int), Error>(
                    (vm_pairs(out@) + q.0, done + q.1),
                ),
            }),
        decreases n - i,
    {
        let ghost cur = reader@;
        let ghost dv0 = vm_pairs(out@);
        let key = match read_value(kt, reader) {
            Err(e2) => {
                return Err(e2);
            },
            Ok(x) => x,
        };
        proof {
            lemma_dec_bounds(ktt, cur);
            let ck = dec(ktt, cur)->Ok_0.1;
            assert(s4.skip(done).skip(ck) =~= s4.skip(done + ck));
            done = done + ck;
        }
        let ghost cur2 = reader@;
        let val = match read_value(vt, reader) {
            Err(e2) => {
                return Err(e2);
            },
            Ok(x) => x,
        };
        proof {
            lemma_dec_bounds(vtt, cur2);
            let cv = dec(vtt, cur2)->Ok_0.1;
            assert(s4.skip(done).skip(cv) =~= s4.skip(done + cv));
            done = done + cv;
        }
        let ghost prev = out@;
        out.push((key, val));
        proof {
            let ck = dec(ktt, cur)->Ok_0.1;
            let cv = dec(vtt, cur2)->Ok_0.1;
            assert(cur.skip(ck + cv) =~= s4.skip(done));
            assert(prev =~= out@.drop_last());
            lemma_vm_pairs(out@);
            lemma_vm_pairs(prev);
            assert(vm_pairs(out@) =~= dv0 + seq![(vm(key), vm(val))]);
            let rr = dec_pairs(ktt, vtt, (n - i - 1) as nat, s4.skip(done));
            if rr is Ok {
                assert(dv0 + (seq![(vm(key), vm(val))] + rr->Ok_0.0) =~= vm_pairs(out@)
                    + rr->Ok_0.0);
            }
        }
        i = i + 1;
    }
    proof {
        assert(vm_pairs(out@) + Seq::<(ValModel, ValModel)>::empty() =~= vm_pairs(out@));
    }
    Ok(out)
}

/// Reads the fields of a struct, one after the other, with no framing.
fn read_record(ts: &Vec<WireType>, reader: &mut Reader) -> (r: Result<Vec<Value>, Error>)
    ensures
        match dec_fields(ts@, old(reader)@) {
            Err(e2) => r matches Err(a) && a == e2,
            Ok(q) => {
                &&& r matches Ok(vs) && vm_seq(vs@) == q.0
                &&& final(reader)@ == old(reader)@.skip(q.1)
            },
        },
    decreases height_list(ts@) + 1,
{
    let ghost s0 = reader@;
    let ghost tsq = ts@;
    let mut out: Vec<Value> = Vec::new();
    let mut j: usize = 0;
    let ghost mut done: int = 0;
    proof {
        assert(s0.skip(0) =~= s0);
        assert(tsq.subrange(0, tsq.len() as int) =~= tsq);
        assert(vm_seq(out@) =~= Seq::<ValModel>::empty());
        let r0 = dec_fields(tsq, s0);
        if r0 is Ok {
            assert(Seq::<ValModel>::empty() + r0->Ok_0.0 =~= r0->Ok_0.0);
        }
    }
    while j < ts.len()
        invariant
            s0 == old(reader)@,
            tsq == ts@,
            0 <= j <= tsq.len(),
            0 <= done <= s0.len(),
            reader@ == s0.skip(done),
            dec_fields(tsq, s0) == (match dec_fields(
                tsq.subrange(j as int, tsq.len() as int),
                s0.skip(done),
            ) {
                Err(e2) => Err::<(Seq<ValModel>, int), Error>(e2),
                Ok(q) => Ok::<(Seq<ValModel>, int), Error>((vm_seq(out@) + q.0, done + q.1)),
            }),
        decreases tsq.len() - j,
    {
        let ghost cur = reader@;
        let ghost dv0 = vm_seq(out@);
        let ghost rest = tsq.subrange(j as int, tsq.len() as int);
        proof {
            lemma_height_list_member(tsq, j as int);
            assert(rest[0] == tsq[j as int]);
            assert(rest.subrange(1, rest.len() as int) =~= tsq.subrange(j + 1, tsq.len() as int));
        }
        match read_value(&ts[j], reader) {
            Err(e2) => {
                return Err(e2);
            },
            Ok(x) => {
                proof {
                    lemma_dec_bounds(tsq[j as int], cur);
                    let c = dec(tsq[j as int], cur)->Ok_0.1;
                    assert(s0.skip(done).skip(c) =~= s0.skip(done + c));
                    done = done + c;
                }
                let ghost prev = out@;
                out.push(x);
                proof {
                    assert(prev =~= out@.drop_last());
                    lemma_vm_seq(out@);
                    lemma_vm_seq(prev);
                    assert(vm_seq(out@) =~= dv0 + seq![vm(x)]);
                    let rr = dec_fields(tsq.subrange(j + 1, tsq.len() as int), s0.skip(done));
                    if rr is Ok {
                        assert(dv0 + (seq![vm(x)] + rr->Ok_0.0) =~= vm_seq(out@) + rr->Ok_0.0);
                    }
                }
                j = j + 1;
            },
        }
    }
    proof {
        assert(tsq.subrange(tsq.len() as int, tsq.len() as int) =~= Seq::<WireType>::empty());
        assert(vm_seq(out@) + Seq::<ValModel>::empty() =~= vm_seq(out@));
    }
    Ok(out)
}

/// Parses a message body: tag 0 ends it, a declared tag stores that field,
/// an undeclared tag drops everything after it.
fn read_message_fields(fs: &Vec<(u8, WireType)>, body: &[u8]) -> (r: Result<
    Vec<Option<Value>>,
    Error,
>)
    ensures
        match dec_msg(fs@, body@, Seq::new(fs@.len(), |i: int| None::<ValModel>)) {
            Err(e2) => r matches Err(a) && a == e2,
            Ok(os) => r matches Ok(acc) && vm_opts(acc@) == os && acc@.len() == fs@.len(),
        },
    decreases height_tagged(fs@) + 1,
{
    let ghost fsq = fs@;
    let ghost body0 = body@;
    let ghost init = Seq::new(fsq.len(), |i: int| None::<ValModel>);
    let mut brd = Reader::new(body);
    let mut acc: Vec<Option<Value>> = Vec::new();
    while acc.len() < fs.len()
        invariant
            fsq == fs@,
            0 <= acc@.len() <= fsq.len(),
            vm_opts(acc@) =~= Seq::new(acc@.len() as nat, |i: int| None::<ValModel>),
        decreases fsq.len() - acc@.len(),
    {
        let ghost a0 = acc@;
        acc.push(None);
        proof {
            lemma_vm_opts(acc@);
            lemma_vm_opts(a0);
            assert forall|i: int| 0 <= i < acc@.len() implies vm_opts(acc@)[i]
                == None::<ValModel> by {
                if i < a0.len() {
                    assert(acc@[i] == a0[i]);
                    assert(vm_opts(a0)[i] == None::<ValModel>);
                } else {
                    assert(acc@[i] == None::<Value>);
                }
            }
            assert(vm_opts(acc@) =~= Seq::new(acc@.len() as nat, |i: int| None::<ValModel>));
        }
    }
    proof {
        assert(vm_opts(acc@) =~= init);
    }
    loop
        invariant_except_break
            dec_msg(fsq, body0, init) == dec_msg(fsq, brd@, vm_opts(acc@)),
        invariant
            fsq == fs@,
            body0 == body@,
            init == Seq::new(fsq.len(), |i: int| None::<ValModel>),
            acc@.len() == fsq.len(),
        ensures
            dec_msg(fsq, body0, init) == Ok::<Seq<Option<ValModel>>, Error>(vm_opts(acc@)),
        decreases brd@.len(),
    {
        let ghost cur = brd@;
        let tag: u8 = match u8::read_from(&mut brd) {
            Err(e2) => {
                return Err(e2);
            },
            Ok(x) => x,
        };
        if tag == 0 {
            break;
        }
        let k = find_tag(fs, tag);
        if k == fs.len() {
            proof {
                lemma_dec_tagged_none(fsq, tag, cur.subrange(1, cur.len() as int));
            }
            break;
        }
        proof {
            lemma_dec_tagged_at(fsq, tag, cur.subrange(1, cur.len() as int), k as int);
            lemma_height_tagged_member(fsq, k as int);
            assert(brd@ =~= cur.subrange(1, cur.len() as int));
        }
        let ghost cur1 = brd@;
        let fv = match read_value(&fs[k].1, &mut brd) {
            Err(e2) => {
                return Err(e2);
            },
            Ok(x) => x,
        };
        let ghost a0 = acc@;
        acc[k] = Some(fv);
        proof {
            lemma_dec_bounds(fsq[k as int].1, cur1);
            let c = dec(fsq[k as int].1, cur1)->Ok_0.1;
            assert(cur1.skip(c) =~= cur.subrange(1 + c, cur.len() as int));
            lemma_vm_opts(acc@);
            lemma_vm_opts(a0);
            assert(acc@ =~= a0.update(k as int, Some(fv)));
            assert(vm_opts(acc@) =~= vm_opts(a0).update(k as int, Some(vm(fv))));
        }
    }
    Ok(acc)
}

/// Parses a union body: the first byte is the variant tag, the rest the
/// payload; an undeclared tag is an error, trailing payload bytes are
/// ignored.
fn read_choice_body(fs: &Vec<(u8, WireType)>, body: &[u8]) -> (r: Result<(u8, Value), Error>)
    ensures
        body@.len() < 1 ==> (r matches Err(a) && a == Error::UnexpectedEnd),
        body@.len() >= 1 ==> match dec_tagged(
            fs@,
            body@[0],
            body@.subrange(1, body@.len() as int),
        ) {
            None => r matches Err(a) && a == Error::UnknownUnionTag,
            Some(q) => match q.1 {
                Err(e2) => r matches Err(a) && a == e2,
                Ok(p) => r matches Ok(tv) && tv.0 == body@[0] && vm(tv.1) == p.0,
            },
        },
    decreases height_tagged(fs@) + 1,
{
    let ghost fsq = fs@;
    let ghost body0 = body@;
    let mut brd = Reader::new(body);
    let tag: u8 = u8::read_from(&mut brd)?;
    let k = find_tag(fs, tag);
    if k == fs.len() {
        proof {
            lemma_dec_tagged_none(fsq, tag, body0.subrange(1, body0.len() as int));
        }
        return Err(Error::UnknownUnionTag);
    }
    proof {
        lemma_dec_tagged_at(fsq, tag, body0.subrange(1, body0.len() as int), k as int);
        lemma_height_tagged_member(fsq, k as int);
        assert(brd@ =~= body0.subrange(1, body0.len() as int));
    }
    let pv = read_value(&fs[k].1, &mut brd)?;
    Ok((tag, pv))
}

/// Decodes one value of type `t` from the front of the reader. The outcome
/// and the bytes consumed are exactly what [`dec`] says.
pub fn read_value(t: &WireType, reader: &mut Reader) -> (r: Result<Value, Error>)
    ensures
        match dec(*t, old(reader)@) {
            Ok(p) => {
                &&& r matches Ok(v) && vm(v) == p.0
                &&& final(reader)@ == old(reader)@.skip(p.1)
            },
            Err(e) => r matches Err(a) && a == e,
        },
    decreases wire_height(*t),
{
    match t {
        WireType::Boolean => {
            let x = bool::read_from(reader)?;
            Ok(Value::Boolean(x))
        },
        WireType::UInt8 => {
            let x = u8::read_from(reader)?;
            Ok(Value::UInt8(x))
        },
        WireType::Int8 => {
            let x = i8::read_from(reader)?;
            Ok(Value::Int8(x))
        },
        WireType::UInt16 => {
            let x = u16::read_from(reader)?;
            Ok(Value::UInt16(x))
        },
        WireType::Int16 => {
            let x = i16::read_from(reader)?;
            Ok(Value::Int16(x))
        },
        WireType::UInt32 => {
            let x = u32::read_from(reader)?;
            Ok(Value::UInt32(x))
        },
        WireType::Int32 => {
            let x = i32::read_from(reader)?;
            Ok(Value::Int32(x))
        },
        WireType::UInt64 => {
            let x = u64::read_from(reader)?;
            Ok(Value::UInt64(x))
        },
        WireType::Int64 => {
            let x = i64::read_from(reader)?;
            Ok(Value::Int64(x))
        },
        WireType::Float32 => {
            let x = u32::read_from(reader)?;
            Ok(Value::Float32Bits(x))
        },
        WireType::Float64 => {
            let x = u64::read_from(reader)?;
            Ok(Value::Float64Bits(x))
        },
        WireType::Text => {
            let x = String::read_from(reader)?;
            Ok(Value::Text(x))
        },
        WireType::GuidType => {
            let x = Guid::read_from(reader)?;
            Ok(Value::GuidVal(x))
        },
        WireType::DateType => {
            let x = Date::read_from(reader)?;
            Ok(Value::DateVal(x))
        },
        WireType::List(e) => {
            let ghost s0 = reader@;
            let vs = read_list(e, reader)?;
            proof {
                if u32::dec(s0) is Ok {
                    let n = u32::dec(s0)->Ok_0.0;
                    lemma_dec_each_bounds(**e, n as nat, s0.skip(4));
                    let rq = dec_each(**e, n as nat, s0.skip(4));
                    if rq is Ok {
                        assert(s0.skip(4).skip(rq->Ok_0.1) =~= s0.skip(4 + rq->Ok_0.1));
                    }
                }
            }
            Ok(Value::List(vs))
        },
        WireType::Assoc(kt, vt) => {
            let ghost s0 = reader@;
            let ps = read_assoc(kt, vt, reader)?;
            proof {
                if u32::dec(s0) is Ok {
                    let n = u32::dec(s0)->Ok_0.0;
                    lemma_dec_pairs_bounds(**kt, **vt, n as nat, s0.skip(4));
                    let rq = dec_pairs(**kt, **vt, n as nat, s0.skip(4));
                    if rq is Ok {
                        assert(s0.skip(4).skip(rq->Ok_0.1) =~= s0.skip(4 + rq->Ok_0.1));
                    }
                }
            }
            Ok(Value::Assoc(ps))
        },
        WireType::Record(ts) => {
            let vs = read_record(ts, reader)?;
            Ok(Value::Record(vs))
        },
        WireType::Message(fs) => {
            let ghost s0 = reader@;
            let n: u32 = u32::read_from(reader)?;
            let body = reader.read_raw(n as usize)?;
            proof {
                assert(s0.skip(4).take(n as int) =~= s0.subrange(4, 4 + n as int));
                assert(s0.skip(4).skip(n as int) =~= s0.skip(4 + n as int));
            }
            let acc = read_message_fields(fs, body)?;
            Ok(Value::MessageVal(acc))
        },
        WireType::Choice(fs) => {
            let ghost s0 = reader@;
            let n: u32 = u32::read_from(reader)?;
            let body = reader.read_raw(n as usize)?;
            proof {
                assert(s0.skip(4).take(n as int) =~= s0.subrange(4, 4 + n as int));
                assert(s0.skip(4).skip(n as int) =~= s0.skip(4 + n as int));
            }
            let tv = read_choice_body(fs, body)?;
            let (tag, pv) = tv;
            Ok(Value::ChoiceVal(tag, Box::new(pv)))
        },
        WireType::Discrim(vals) => {
            let x: u32 = u32::read_from(reader)?;
            if vals_contains(vals, x) {
                Ok(Value::EnumVal(x))
            } else {
                Err(Error::UnknownEnumValue)
            }
        },
    }
}

/// Decodes one value of type `t` from the front of `bytes`; trailing bytes
/// are permitted and ignored.
pub fn decode_value(t: &WireType, bytes: &[u8]) -> (r: Result<Value, Error>)
    ensures
        match dec(*t, bytes@) {
            Ok(p) => r matches Ok(v) && vm(v) == p.0,
            Err(e) => r matches Err(a) && a == e,
        },
{
    let mut reader = Reader::new(bytes);
    read_value(t, &mut reader)
}


/// When position `k` holds the first variant with the given tag, conforming,
/// encoding and encodability of a union payload all go through that variant.
pub proof fn lemma_choice_at(fs: Seq<(u8, WireType)>, tag: u8, p: ValModel, k: int)
    requires
        0 <= k < fs.len(),
        fs[k].0 == tag,
        forall|j: int| 0 <= j < k ==> (#[trigger] fs[j].0) != tag,
    ensures
        conforms_choice(fs, tag, p) == conforms(fs[k].1, p),
        enc_choice(fs, tag, p) == enc(fs[k].1, p),
        enc_ok_choice(fs, tag, p) == enc_ok(fs[k].1, p),
    decreases fs,
{
    if k > 0 {
        let sub = fs.subrange(1, fs.len() as int);
        assert forall|j: int| 0 <= j < k - 1 implies (#[trigger] sub[j].0) != tag by {
            assert(sub[j] == fs[j + 1]);
        }
        lemma_choice_at(sub, tag, p, k - 1);
        assert(sub[k - 1] == fs[k]);
    }
}

/// When no variant carries the tag, no union value with that tag conforms.
pub proof fn lemma_choice_none(fs: Seq<(u8, WireType)>, tag: u8, p: ValModel)
    requires
        forall|j: int| 0 <= j < fs.len() ==> (#[trigger] fs[j].0) != tag,
    ensures
        !conforms_choice(fs, tag, p),
    decreases fs,
{
    if fs.len() > 0 {
        let sub = fs.subrange(1, fs.len() as int);
        assert forall|j: int| 0 <= j < sub.len() implies (#[trigger] sub[j].0) != tag by {
            assert(sub[j] == fs[j + 1]);
        }
        lemma_choice_none(sub, tag, p);
    }
}

/// Writes the elements of an array value, in order.
fn write_list(e: &WireType, vs: &Vec<Value>, writer: &mut Writer) -> (r: Result<(), EncodeError>)
    requires
        conforms_each(*e, vm_seq(vs@)),
    ensures
        enc_ok_each(*e, vm_seq(vs@)) ==> r is Ok && final(writer)@ == old(writer)@ + enc_each(
            *e,
            vm_seq(vs@),
        ),
        !enc_ok_each(*e, vm_seq(vs@)) ==> r is Err,
    decreases vs@,
{
    let ghost et = *e;
    let ghost msq = vm_seq(vs@);
    let ghost base = writer@;
    let ghost mut pre: Seq<u8> = Seq::empty();
    proof {
        lemma_vm_seq(vs@);
        assert(msq.subrange(0, msq.len() as int) =~= msq);
        assert(base + pre =~= base);
    }
    let mut i: usize = 0;
    while i < vs.len()
        invariant
            et == *e,
            vs@.len() == msq.len(),
            msq == vm_seq(vs@),
            0 <= i <= msq.len(),
            writer@ == base + pre,
            enc_each(et, msq) == pre + enc_each(et, msq.subrange(i as int, msq.len() as int)),
            conforms_each(et, msq.subrange(i as int, msq.len() as int)),
            enc_ok_each(et, msq) ==> enc_ok_each(et, msq.subrange(i as int, msq.len() as int)),
            enc_ok_each(et, msq.subrange(i as int, msq.len() as int)) ==> enc_ok_each(et, msq),
        decreases msq.len() - i,
    {
        let ghost tail = msq.subrange(i as int, msq.len() as int);
        proof {
            lemma_vm_seq(vs@);
            assert(tail[0] == msq[i as int]);
            assert(msq[i as int] == vm(vs@[i as int]));
            assert(tail.subrange(1, tail.len() as int) =~= msq.subrange(
                i + 1,
                msq.len() as int,
            ));
            assert(decreases_to!(vs@ => vs@[i as int]));
        }
        match write_value(e, &vs[i], writer) {
            Err(e2) => {
                return Err(e2);
            },
            Ok(u) => {
                proof {
                    let pre0 = pre;
                    pre = pre0 + enc(et, msq[i as int]);
                    assert((base + pre0) + enc(et, msq[i as int]) =~= base + pre);
                    assert(pre0 + (enc(et, msq[i as int]) + enc_each(
                        et,
                        msq.subrange(i + 1, msq.len() as int),
                    )) =~= pre + enc_each(et, msq.subrange(i + 1, msq.len() as int)));
                }
                i = i + 1;
            },
        }
    }
    proof {
        assert(msq.subrange(msq.len() as int, msq.len() as int) =~= Seq::<ValModel>::empty());
        assert(pre + Seq::<u8>::empty() =~= pre);
    }
    Ok(())
}

/// Writes the entries of a map value, key then value, in order.
fn write_assoc(
    kt: &WireType,
    vt: &WireType,
    ps: &Vec<(Value, Value)>,
    writer: &mut Writer,
) -> (r: Result<(), EncodeError>)
    requires
        conforms_pairs(*kt, *vt, vm_pairs(ps@)),
    ensures
        enc_ok_pairs(*kt, *vt, vm_pairs(ps@)) ==> r is Ok && final(writer)@ == old(writer)@
            + enc_pairs(*kt, *vt, vm_pairs(ps@)),
        !enc_ok_pairs(*kt, *vt, vm_pairs(ps@)) ==> r is Err,
    decreases ps@,
{
    let ghost ktt = *kt;
    let ghost vtt = *vt;
    let ghost msq = vm_pairs(ps@);
    let ghost base = writer@;
    let ghost mut pre: Seq<u8> = Seq::empty();
    proof {
        lemma_vm_pairs(ps@);
        assert(msq.subrange(0, msq.len() as int) =~= msq);
        assert(base + pre =~= base);
    }
    let mut i: usize = 0;
    while i < ps.len()
        invariant
            ktt == *kt,
            vtt == *vt,
            ps@.len() == msq.len(),
            msq == vm_pairs(ps@),
            0 <= i <= msq.len(),
            writer@ == base + pre,
            enc_pairs(ktt, vtt, msq) == pre + enc_pairs(
                ktt,
                vtt,
                msq.subrange(i as int, msq.len() as int),
            ),
            conforms_pairs(ktt, vtt, msq.subrange(i as int, msq.len() as int)),
            enc_ok_pairs(ktt, vtt, msq) ==> enc_ok_pairs(
                ktt,
                vtt,
                msq.subrange(i as int, msq.len() as int),
            ),
            enc_ok_pairs(ktt, vtt, msq.subrange(i as int, msq.len() as int)) ==> enc_ok_pairs(
                ktt,
                vtt,
                msq,
            ),
        decreases msq.len() - i,
    {
        let ghost tail = msq.subrange(i as int, msq.len() as int);
        proof {
            lemma_vm_pairs(ps@);
            assert(tail[0] == msq[i as int]);
            assert(msq[i as int] == (vm(ps@[i as int].0), vm(ps@[i as int].1)));
            assert(tail.subrange(1, tail.len() as int) =~= msq.subrange(
                i + 1,
                msq.len() as int,
            ));
            assert(decreases_to!(ps@ => ps@[i as int]));
        }
        match write_value(kt, &ps[i].0, writer) {
            Err(e2) => {
                return Err(e2);
            },
            Ok(u) => {
            },
        }
        match write_value(vt, &ps[i].1, writer) {
            Err(e2) => {
                return Err(e2);
            },
            Ok(u) => {
            },
        }
        proof {
            let pre0 = pre;
            let step = enc(ktt, msq[i as int].0) + enc(vtt, msq[i as int].1);
            pre = pre0 + step;
            assert(((base + pre0) + enc(ktt, msq[i as int].0)) + enc(
                vtt,
                msq[i as int].1,
            ) =~= base + pre);
            assert(pre0 + ((enc(ktt, msq[i as int].0) + enc(vtt, msq[i as int].1))
                + enc_pairs(ktt, vtt, msq.subrange(i + 1, msq.len() as int))) =~= pre + enc_pairs(
                ktt,
                vtt,
                msq.subrange(i + 1, msq.len() as int),
            ));
        }
        i = i + 1;
    }
    proof {
        assert(msq.subrange(msq.len() as int, msq.len() as int) =~= Seq::<(
            ValModel,
            ValModel,
        )>::empty());
        assert(pre + Seq::<u8>::empty() =~= pre);
    }
    Ok(())
}

/// Writes the fields of a struct value, in declared order, bare.
fn write_record(ts: &Vec<WireType>, vs: &Vec<Value>, writer: &mut Writer) -> (r: Result<
    (),
    EncodeError,
>)
    requires
        vm_seq(vs@).len() == ts@.len(),
        conforms_fields(ts@, vm_seq(vs@)),
    ensures
        enc_ok_fields(ts@, vm_seq(vs@)) ==> r is Ok && final(writer)@ == old(writer)@ + enc_fields(
            ts@,
            vm_seq(vs@),
        ),
        !enc_ok_fields(ts@, vm_seq(vs@)) ==> r is Err,
    decreases vs@,
{
    let ghost tsq = ts@;
    let ghost msq = vm_seq(vs@);
    let ghost base = writer@;
    let ghost mut pre: Seq<u8> = Seq::empty();
    proof {
        lemma_vm_seq(vs@);
        assert(msq.subrange(0, msq.len() as int) =~= msq);
        assert(tsq.subrange(0, tsq.len() as int) =~= tsq);
        assert(base + pre =~= base);
    }
    let mut i: usize = 0;
    while i < vs.len()
        invariant
            tsq == ts@,
            vs@.len() == msq.len(),
            msq.len() == tsq.len(),
            msq == vm_seq(vs@),
            0 <= i <= msq.len(),
            writer@ == base + pre,
            enc_fields(tsq, msq) == pre + enc_fields(
                tsq.subrange(i as int, tsq.len() as int),
                msq.subrange(i as int, msq.len() as int),
            ),
            conforms_fields(
                tsq.subrange(i as int, tsq.len() as int),
                msq.subrange(i as int, msq.len() as int),
            ),
            enc_ok_fields(tsq, msq) ==> enc_ok_fields(
                tsq.subrange(i as int, tsq.len() as int),
                msq.subrange(i as int, msq.len() as int),
            ),
            enc_ok_fields(
                tsq.subrange(i as int, tsq.len() as int),
                msq.subrange(i as int, msq.len() as int),
            ) ==> enc_ok_fields(tsq, msq),
        decreases msq.len() - i,
    {
        let ghost mtail = msq.subrange(i as int, msq.len() as int);
        let ghost ttail = tsq.subrange(i as int, tsq.len() as int);
        proof {
            lemma_vm_seq(vs@);
            assert(mtail[0] == msq[i as int]);
            assert(ttail[0] == tsq[i as int]);
            assert(msq[i as int] == vm(vs@[i as int]));
            assert(mtail.subrange(1, mtail.len() as int) =~= msq.subrange(
                i + 1,
                msq.len() as int,
            ));
            assert(ttail.subrange(1, ttail.len() as int) =~= tsq.subrange(
                i + 1,
                tsq.len() as int,
            ));
            assert(decreases_to!(vs@ => vs@[i as int]));
        }
        match write_value(&ts[i], &vs[i], writer) {
            Err(e2) => {
                return Err(e2);
            },
            Ok(u) => {
                proof {
                    let pre0 = pre;
                    pre = pre0 + enc(tsq[i as int], msq[i as int]);
                    assert((base + pre0) + enc(tsq[i as int], msq[i as int]) =~= base + pre);
                    assert(pre0 + (enc(tsq[i as int], msq[i as int]) + enc_fields(
                        tsq.subrange(i + 1, tsq.len() as int),
                        msq.subrange(i + 1, msq.len() as int),
                    )) =~= pre + enc_fields(
                        tsq.subrange(i + 1, tsq.len() as int),
                        msq.subrange(i + 1, msq.len() as int),
                    ));
                }
                i = i + 1;
            },
        }
    }
    proof {
        assert(msq.subrange(msq.len() as int, msq.len() as int) =~= Seq::<ValModel>::empty());
        assert(tsq.subrange(tsq.len() as int, tsq.len() as int) =~= Seq::<WireType>::empty());
        assert(pre + Seq::<u8>::empty() =~= pre);
    }
    Ok(())
}

/// Writes a message body before its terminator: for each present field, its
/// tag byte and its encoding, in declared order.
fn write_message_fields(
    fs: &Vec<(u8, WireType)>,
    os: &Vec<Option<Value>>,
    writer: &mut Writer,
) -> (r: Result<(), EncodeError>)
    requires
        vm_opts(os@).len() == fs@.len(),
        conforms_opts(fs@, vm_opts(os@)),
    ensures
        enc_ok_opts(fs@, vm_opts(os@)) ==> r is Ok && final(writer)@ == old(writer)@ + enc_opts(
            fs@,
            vm_opts(os@),
        ),
        !enc_ok_opts(fs@, vm_opts(os@)) ==> r is Err,
    decreases os@,
{
    let ghost fsq = fs@;
    let ghost osq = vm_opts(os@);
    let ghost base = writer@;
    let ghost mut pre: Seq<u8> = Seq::empty();
    proof {
        lemma_vm_opts(os@);
        assert(osq.subrange(0, osq.len() as int) =~= osq);
        assert(fsq.subrange(0, fsq.len() as int) =~= fsq);
        assert(base + pre =~= base);
    }
    let mut i: usize = 0;
    while i < os.len()
        invariant
            fsq == fs@,
            os@.len() == osq.len(),
            osq.len() == fsq.len(),
            osq == vm_opts(os@),
            0 <= i <= osq.len(),
            writer@ == base + pre,
            enc_opts(fsq, osq) == pre + enc_opts(
                fsq.subrange(i as int, fsq.len() as int),
                osq.subrange(i as int, osq.len() as int),
            ),
            conforms_opts(
                fsq.subrange(i as int, fsq.len() as int),
                osq.subrange(i as int, osq.len() as int),
            ),
            enc_ok_opts(fsq, osq) ==> enc_ok_opts(
                fsq.subrange(i as int, fsq.len() as int),
                osq.subrange(i as int, osq.len() as int),
            ),
            enc_ok_opts(
                fsq.subrange(i as int, fsq.len() as int),
                osq.subrange(i as int, osq.len() as int),
            ) ==> enc_ok_opts(fsq, osq),
        decreases osq.len() - i,
    {
        let ghost otail = osq.subrange(i as int, osq.len() as int);
        let ghost ftail = fsq.subrange(i as int, fsq.len() as int);
        proof {
            lemma_vm_opts(os@);
            assert(otail[0] == osq[i as int]);
            assert(ftail[0] == fsq[i as int]);
            assert(otail.subrange(1, otail.len() as int) =~= osq.subrange(
                i + 1,
                osq.len() as int,
            ));
            assert(ftail.subrange(1, ftail.len() as int) =~= fsq.subrange(
                i + 1,
                fsq.len() as int,
            ));
        }
        let ghost step: Seq<u8>;
        match &os[i] {
            None => {
                proof {
                    step = Seq::empty();
                }
            },
            Some(x) => {
                proof {
                    assert(osq[i as int] == Some(vm(*x)));
                    assert(decreases_to!(os@ => os@[i as int]));
                    step = seq![fsq[i as int].0] + enc(fsq[i as int].1, vm(*x));
                }
                writer.push_byte(fs[i].0);
                match write_value(&fs[i].1, x, writer) {
                    Err(e2) => {
                        return Err(e2);
                    },
                    Ok(u) => {
                    },
                }
            },
        }
        proof {
            let pre0 = pre;
            pre = pre0 + step;
            assert(base + pre =~= (base + pre0) + step);
            assert(pre0 + (step + enc_opts(
                fsq.subrange(i + 1, fsq.len() as int),
                osq.subrange(i + 1, osq.len() as int),
            )) =~= pre + enc_opts(
                fsq.subrange(i + 1, fsq.len() as int),
                osq.subrange(i + 1, osq.len() as int),
            ));
        }
        i = i + 1;
    }
    proof {
        assert(osq.subrange(osq.len() as int, osq.len() as int) =~= Seq::<Option<
            ValModel,
        >>::empty());
        assert(fsq.subrange(fsq.len() as int, fsq.len() as int) =~= Seq::<(u8, WireType)>::empty());
        assert(pre + Seq::<u8>::empty() =~= pre);
    }
    Ok(())
}

/// Appends the encoding of `v` as a value of type `t`, or fails when a
/// count, string or frame would not fit the wire format's 32-bit length
/// fields. This is the explicit fallible path for oversized values: nothing
/// is truncated and nothing panics.
pub fn write_value(t: &WireType, v: &Value, writer: &mut Writer) -> (r: Result<(), EncodeError>)
    requires
        conforms(*t, vm(*v)),
    ensures
        enc_ok(*t, vm(*v)) ==> r is Ok && final(writer)@ == old(writer)@ + enc(*t, vm(*v)),
        !enc_ok(*t, vm(*v)) ==> r is Err,
    decreases *v,
{
    match t {
        WireType::Boolean => match v {
            Value::Boolean(x) => {
                x.write_into(writer);
                Ok(())
            },
            _ => {
                proof {
                    assert(false);
                }
                Err(EncodeError::TooLarge)
            },
        },
        WireType::UInt8 => match v {
            Value::UInt8(x) => {
                x.write_into(writer);
                Ok(())
            },
            _ => {
                proof {
                    assert(false);
                }
                Err(EncodeError::TooLarge)
            },
        },
        WireType::Int8 => match v {
            Value::Int8(x) => {
                x.write_into(writer);
                Ok(())
            },
            _ => {
                proof {
                    assert(false);
                }
                Err(EncodeError::TooLarge)
            },
        },
        WireType::UInt16 => match v {
            Value::UInt16(x) => {
                x.write_into(writer);
                Ok(())
            },
            _ => {
                proof {
                    assert(false);
                }
                Err(EncodeError::TooLarge)
            },
        },
        WireType::Int16 => match v {
            Value::Int16(x) => {
                x.write_into(writer);
                Ok(())
            },
            _ => {
                proof {
                    assert(false);
                }
                Err(EncodeError::TooLarge)
            },
        },
        WireType::UInt32 => match v {
            Value::UInt32(x) => {
                x.write_into(writer);
                Ok(())
            },
            _ => {
                proof {
                    assert(false);
                }
                Err(EncodeError::TooLarge)
            },
        },
        WireType::Int32 => match v {
            Value::Int32(x) => {
                x.write_into(writer);
                Ok(())
            },
            _ => {
                proof {
                    assert(false);
                }
                Err(EncodeError::TooLarge)
            },
        },
        WireType::UInt64 => match v {
            Value::UInt64(x) => {
                x.write_into(writer);
                Ok(())
            },
            _ => {
                proof {
                    assert(false);
                }
                Err(EncodeError::TooLarge)
            },
        },
        WireType::Int64 => match v {
            Value::Int64(x) => {
                x.write_into(writer);
                Ok(())
            },
            _ => {
                proof {
                    assert(false);
                }
                Err(EncodeError::TooLarge)
            },
        },
        WireType::Float32 => match v {
            Value::Float32Bits(x) => {
                x.write_into(writer);
                Ok(())
            },
            _ => {
                proof {
                    assert(false);
                }
                Err(EncodeError::TooLarge)
            },
        },
        WireType::Float64 => match v {
            Value::Float64Bits(x) => {
                x.write_into(writer);
                Ok(())
            },
            _ => {
                proof {
                    assert(false);
                }
                Err(EncodeError::TooLarge)
            },
        },
        WireType::Text => match v {
            Value::Text(s) => {
                let bv = s.as_str().as_bytes_vec();
                let bl = bv.len();
                if bl as u64 > 0xffff_ffffu64 {
                    return Err(EncodeError::TooLarge);
                }
                s.write_into(writer);
                Ok(())
            },
            _ => {
                proof {
                    assert(false);
                }
                Err(EncodeError::TooLarge)
            },
        },
        WireType::GuidType => match v {
            Value::GuidVal(g) => {
                g.write_into(writer);
                Ok(())
            },
            _ => {
                proof {
                    assert(false);
                }
                Err(EncodeError::TooLarge)
            },
        },
        WireType::DateType => match v {
            Value::DateVal(d) => {
                d.write_into(writer);
                Ok(())
            },
            _ => {
                proof {
                    assert(false);
                }
                Err(EncodeError::TooLarge)
            },
        },
        WireType::List(e) => match v {
            Value::List(vs) => {
                proof {
                    lemma_vm_seq(vs@);
                    assert(decreases_to!(*v => (*v)->List_0));
                    assert(decreases_to!((*v)->List_0 => vs@));
                }
                if vs.len() as u64 > 0xffff_ffffu64 {
                    return Err(EncodeError::TooLarge);
                }
                let n = vs.len() as u32;
                u32::write_into(&n, writer);
                let r = write_list(e, vs, writer);
                match r {
                    Err(e2) => Err(e2),
                    Ok(u) => {
                        proof {
                            assert((old(writer)@ + u32::wire(n)) + enc_each(**e, vm_seq(vs@)) =~= old(
                                writer,
                            )@ + enc(*t, vm(*v)));
                        }
                        Ok(())
                    },
                }
            },
            _ => {
                proof {
                    assert(false);
                }
                Err(EncodeError::TooLarge)
            },
        },
        WireType::Assoc(kt, vt) => match v {
            Value::Assoc(ps) => {
                proof {
                    lemma_vm_pairs(ps@);
                    assert(decreases_to!(*v => (*v)->Assoc_0));
                    assert(decreases_to!((*v)->Assoc_0 => ps@));
                }
                if ps.len() as u64 > 0xffff_ffffu64 {
                    return Err(EncodeError::TooLarge);
                }
                let n = ps.len() as u32;
                u32::write_into(&n, writer);
                let r = write_assoc(kt, vt, ps, writer);
                match r {
                    Err(e2) => Err(e2),
                    Ok(u) => {
                        proof {
                            assert((old(writer)@ + u32::wire(n)) + enc_pairs(
                                **kt,
                                **vt,
                                vm_pairs(ps@),
                            ) =~= old(writer)@ + enc(*t, vm(*v)));
                        }
                        Ok(())
                    },
                }
            },
            _ => {
                proof {
                    assert(false);
                }
                Err(EncodeError::TooLarge)
            },
        },
        WireType::Record(ts) => match v {
            Value::Record(vs) => {
                proof {
                    lemma_vm_seq(vs@);
                    assert(decreases_to!(*v => (*v)->Record_0));
                    assert(decreases_to!((*v)->Record_0 => vs@));
                }
                write_record(ts, vs, writer)
            },
            _ => {
                proof {
                    assert(false);
                }
                Err(EncodeError::TooLarge)
            },
        },
        WireType::Message(fs) => match v {
            Value::MessageVal(os) => {
                proof {
                    lemma_vm_opts(os@);
                    assert(decreases_to!(*v => (*v)->MessageVal_0));
                    assert(decreases_to!((*v)->MessageVal_0 => os@));
                }
                let mut bw = Writer::new();
                match write_message_fields(fs, os, &mut bw) {
                    Err(e2) => {
                        return Err(e2);
                    },
                    Ok(u) => {
                    },
                }
                bw.push_byte(0u8);
                let body = bw.finish();
                proof {
                    assert(Seq::<u8>::empty() + enc_opts(fs@, vm_opts(os@)) =~= enc_opts(
                        fs@,
                        vm_opts(os@),
                    ));
                    assert(body@ =~= enc_opts(fs@, vm_opts(os@)) + seq![0u8]);
                }
                if body.len() as u64 > 0xffff_ffffu64 {
                    return Err(EncodeError::TooLarge);
                }
                let n = body.len() as u32;
                u32::write_into(&n, writer);
                writer.write_raw(body.as_slice());
                proof {
                    assert((old(writer)@ + u32::wire(n)) + body@ =~= old(writer)@ + enc(
                        *t,
                        vm(*v),
                    ));
                }
                Ok(())
            },
            _ => {
                proof {
                    assert(false);
                }
                Err(EncodeError::TooLarge)
            },
        },
        WireType::Choice(fs) => match v {
            Value::ChoiceVal(tag, p) => {
                let k = find_tag(fs, *tag);
                if k == fs.len() {
                    proof {
                        lemma_choice_none(fs@, *tag, vm(**p));
                        assert(false);
                    }
                    return Err(EncodeError::TooLarge);
                }
                proof {
                    lemma_choice_at(fs@, *tag, vm(**p), k as int);
                    lemma_height_tagged_member(fs@, k as int);
                    assert(decreases_to!(*v => (*v)->ChoiceVal_1));
                }
                let mut pw = Writer::new();
                match write_value(&fs[k].1, p, &mut pw) {
                    Err(e2) => {
                        return Err(e2);
                    },
                    Ok(u) => {
                    },
                }
                let payload = pw.finish();
                proof {
                    assert(Seq::<u8>::empty() + enc(fs@[k as int].1, vm(**p)) =~= enc(
                        fs@[k as int].1,
                        vm(**p),
                    ));
                }
                let pl = payload.len();
                if pl as u64 >= 0xffff_ffffu64 {
                    return Err(EncodeError::TooLarge);
                }
                let pl32 = pl as u32;
                let n = pl32 + 1;
                u32::write_into(&n, writer);
                writer.push_byte(*tag);
                writer.write_raw(payload.as_slice());
                proof {
                    assert(((old(writer)@ + u32::wire(n)) + seq![*tag]) + payload@ =~= old(
                        writer,
                    )@ + enc(*t, vm(*v)));
                }
                Ok(())
            },
            _ => {
                proof {
                    assert(false);
                }
                Err(EncodeError::TooLarge)
            },
        },
        WireType::Discrim(_) => match v {
            Value::EnumVal(x) => {
                x.write_into(writer);
                Ok(())
            },
            _ => {
                proof {
                    assert(false);
                }
                Err(EncodeError::TooLarge)
            },
        },
    }
}

/// The encoding of `v` as a value of type `t`, as a fresh buffer; fails
/// exactly when some count, string or frame exceeds the 32-bit length
/// fields.
pub fn encode_value(t: &WireType, v: &Value) -> (r: Result<Vec<u8>, EncodeError>)
    requires
        conforms(*t, vm(*v)),
    ensures
        enc_ok(*t, vm(*v)) ==> (r matches Ok(b) && b@ == enc(*t, vm(*v))),
        !enc_ok(*t, vm(*v)) ==> r is Err,
{
    let mut writer = Writer::new();
    match write_value(t, v, &mut writer) {
        Err(e2) => Err(e2),
        Ok(u) => {
            proof {
                if enc_ok(*t, vm(*v)) {
                    assert(Seq::<u8>::empty() + enc(*t, vm(*v)) =~= enc(*t, vm(*v)));
                }
            }
            Ok(writer.finish())
        },
    }
}


/// The position of the first tagged entry carrying `tag`, or -1.
pub open spec fn find_first(fs: Seq<(u8, WireType)>, tag: u8) -> int
    decreases fs,
{
    if fs.len() == 0 {
        -1
    } else if fs[0].0 == tag {
        0
    } else {
        let r = find_first(fs.subrange(1, fs.len() as int), tag);
        if r < 0 {
            -1
        } else {
            r + 1
        }
    }
}

/// A conforming union value's tag names a declared variant, and
/// `find_first` finds the first such variant.
pub proof fn lemma_choice_first(fs: Seq<(u8, WireType)>, tag: u8, p: ValModel)
    requires
        conforms_choice(fs, tag, p),
    ensures
        0 <= find_first(fs, tag) < fs.len(),
        fs[find_first(fs, tag)].0 == tag,
        forall|i: int| 0 <= i < find_first(fs, tag) ==> (#[trigger] fs[i].0) != tag,
    decreases fs,
{
    if fs.len() > 0 && fs[0].0 != tag {
        let sub = fs.subrange(1, fs.len() as int);
        lemma_choice_first(sub, tag, p);
        assert forall|i: int| 0 <= i < find_first(fs, tag) implies (#[trigger] fs[i].0) != tag by {
            if i > 0 {
                assert(sub[i - 1] == fs[i]);
            }
        }
    }
}

/// The message accumulator after storing every present field of `os`, which
/// stands for the declared fields from position `j` on.
pub open spec fn overlay(
    acc: Seq<Option<ValModel>>,
    j: int,
    os: Seq<Option<ValModel>>,
) -> Seq<Option<ValModel>> {
    Seq::new(
        acc.len(),
        |i: int|
            if j <= i && i - j < os.len() && os[i - j] is Some {
                os[i - j]
            } else {
                acc[i]
            },
    )
}

/// Decoding a message body made of the present fields of `os`, written in
/// declared order and closed by the terminator, stores exactly those fields
/// in their declared slots and consumes the whole body up to the terminator.
pub proof fn lemma_msg_opts(
    fs: Seq<(u8, WireType)>,
    j: int,
    os: Seq<Option<ValModel>>,
    acc: Seq<Option<ValModel>>,
    rest: Seq<u8>,
)
    requires
        0 <= j <= fs.len(),
        os.len() == fs.len() - j,
        acc.len() == fs.len(),
        conforms_opts(fs.subrange(j, fs.len() as int), os),
        enc_ok_opts(fs.subrange(j, fs.len() as int), os),
        distinct_tags(fs),
        forall|i: int| 0 <= i < fs.len() ==> (#[trigger] fs[i].0) != 0,
        wf_wire_tagged(fs),
    ensures
        dec_msg(fs, enc_opts(fs.subrange(j, fs.len() as int), os) + seq![0u8] + rest, acc)
            == Ok::<Seq<Option<ValModel>>, Error>(overlay(acc, j, os)),
    decreases os, 0nat,
{
    let sub = fs.subrange(j, fs.len() as int);
    if os.len() == 0 {
        assert(enc_opts(sub, os) =~= Seq::<u8>::empty());
        let body = enc_opts(sub, os) + seq![0u8] + rest;
        assert(body[0] == 0);
        assert(overlay(acc, j, os) =~= acc);
    } else {
        assert(sub[0] == fs[j]);
        assert(sub.subrange(1, sub.len() as int) =~= fs.subrange(j + 1, fs.len() as int));
        let sub2 = fs.subrange(j + 1, fs.len() as int);
        let os2 = os.subrange(1, os.len() as int);
        let tailenc = enc_opts(sub2, os2);
        match os[0] {
            None => {
                lemma_msg_opts(fs, j + 1, os2, acc, rest);
                assert(enc_opts(sub, os) =~= tailenc);
                assert(overlay(acc, j, os) =~= overlay(acc, j + 1, os2));
            },
            Some(mv) => {
                let tag = fs[j].0;
                let ty = fs[j].1;
                let pe = enc(ty, mv);
                let body = enc_opts(sub, os) + seq![0u8] + rest;
                assert(enc_opts(sub, os) =~= (seq![tag] + pe) + tailenc);
                assert(body =~= seq![tag] + (pe + (tailenc + seq![0u8] + rest)));
                assert(body[0] == tag);
                assert(tag != 0);
                assert(body.subrange(1, body.len() as int) =~= pe + (tailenc + seq![0u8]
                    + rest));
                assert forall|i: int| 0 <= i < j implies (#[trigger] fs[i].0) != tag by {
                    assert(fs[i].0 != fs[j].0);
                }
                lemma_dec_tagged_at(fs, tag, body.subrange(1, body.len() as int), j);
                lemma_wf_wire_tagged_index(fs, j);
                lemma_enc_dec(ty, mv, tailenc + seq![0u8] + rest);
                assert(body.subrange(1 + pe.len() as int, body.len() as int) =~= tailenc
                    + seq![0u8] + rest);
                lemma_msg_opts(fs, j + 1, os2, acc.update(j, Some(mv)), rest);
                assert(overlay(acc.update(j, Some(mv)), j + 1, os2) =~= overlay(acc, j, os));
            },
        }
    }
}

/// Element decoding undoes element encoding.
pub proof fn lemma_enc_dec_each(e: WireType, ms: Seq<ValModel>, rest: Seq<u8>)
    requires
        wf_wire(e),
        conforms_each(e, ms),
        enc_ok_each(e, ms),
    ensures
        dec_each(e, ms.len(), enc_each(e, ms) + rest) == Ok::<(Seq<ValModel>, int), Error>(
            (ms, enc_each(e, ms).len() as int),
        ),
    decreases ms, 0nat,
{
    if ms.len() == 0 {
        assert(ms =~= Seq::<ValModel>::empty());
    } else {
        let ms2 = ms.subrange(1, ms.len() as int);
        let w0 = enc(e, ms[0]);
        let wr = enc_each(e, ms2);
        lemma_enc_dec(e, ms[0], wr + rest);
        assert(enc_each(e, ms) + rest =~= w0 + (wr + rest));
        assert((w0 + (wr + rest)).skip(w0.len() as int) =~= wr + rest);
        lemma_enc_dec_each(e, ms2, rest);
        assert(seq![ms[0]] + ms2 =~= ms);
    }
}

/// Pair decoding undoes pair encoding.
pub proof fn lemma_enc_dec_pairs(
    kt: WireType,
    vt: WireType,
    ps: Seq<(ValModel, ValModel)>,
    rest: Seq<u8>,
)
    requires
        wf_wire(kt),
        wf_wire(vt),
        conforms_pairs(kt, vt, ps),
        enc_ok_pairs(kt, vt, ps),
    ensures
        dec_pairs(kt, vt, ps.len(), enc_pairs(kt, vt, ps) + rest) == Ok::<
            (Seq<(ValModel, ValModel)>, int),
            Error,
        >((ps, enc_pairs(kt, vt, ps).len() as int)),
    decreases ps, 0nat,
{
    if ps.len() == 0 {
        assert(ps =~= Seq::<(ValModel, ValModel)>::empty());
    } else {
        let ps2 = ps.subrange(1, ps.len() as int);
        let wk = enc(kt, ps[0].0);
        let wv = enc(vt, ps[0].1);
        let wr = enc_pairs(kt, vt, ps2);
        lemma_enc_dec(kt, ps[0].0, wv + (wr + rest));
        assert(enc_pairs(kt, vt, ps) + rest =~= wk + (wv + (wr + rest)));
        assert((wk + (wv + (wr + rest))).skip(wk.len() as int) =~= wv + (wr + rest));
        lemma_enc_dec(vt, ps[0].1, wr + rest);
        assert((wv + (wr + rest)).skip(wv.len() as int) =~= wr + rest);
        lemma_enc_dec_pairs(kt, vt, ps2, rest);
        assert(seq![(ps[0].0, ps[0].1)] + ps2 =~= ps);
        assert((wk + (wv + (wr + rest))).skip(wk.len() as int + wv.len() as int) =~= wr + rest);
    }
}

/// Field decoding undoes field encoding.
pub proof fn lemma_enc_dec_fields(ts: Seq<WireType>, ms: Seq<ValModel>, rest: Seq<u8>)
    requires
        wf_wire_list(ts),
        ms.len() == ts.len(),
        conforms_fields(ts, ms),
        enc_ok_fields(ts, ms),
    ensures
        dec_fields(ts, enc_fields(ts, ms) + rest) == Ok::<(Seq<ValModel>, int), Error>(
            (ms, enc_fields(ts, ms).len() as int),
        ),
    decreases ms, 0nat,
{
    if ms.len() == 0 {
        assert(ms =~= Seq::<ValModel>::empty());
        assert(enc_fields(ts, ms) + rest =~= rest);
        assert(ts =~= Seq::<WireType>::empty());
    } else {
        let ts2 = ts.subrange(1, ts.len() as int);
        let ms2 = ms.subrange(1, ms.len() as int);
        let w0 = enc(ts[0], ms[0]);
        let wr = enc_fields(ts2, ms2);
        lemma_wf_wire_list_index(ts, 0);
        lemma_enc_dec(ts[0], ms[0], wr + rest);
        assert(enc_fields(ts, ms) + rest =~= w0 + (wr + rest));
        assert((w0 + (wr + rest)).skip(w0.len() as int) =~= wr + rest);
        lemma_enc_dec_fields(ts2, ms2, rest);
        assert(seq![ms[0]] + ms2 =~= ms);
    }
}

/// Round-trip law for the descriptor codec: decoding the encoding of any
/// conforming, encodable value of a well-formed type yields that value back,
/// consumes exactly its bytes, and ignores whatever follows them.
pub proof fn lemma_enc_dec(t: WireType, m: ValModel, rest: Seq<u8>)
    requires
        wf_wire(t),
        conforms(t, m),
        enc_ok(t, m),
    ensures
        dec(t, enc(t, m) + rest) == Ok::<(ValModel, int), Error>((m, enc(t, m).len() as int)),
    decreases m, 0nat,
{
    match t {
        WireType::Boolean => {
            bool::lemma_wire_dec(m->Boolean_0, rest);
        },
        WireType::UInt8 => {
            u8::lemma_wire_dec(m->UInt8_0, rest);
        },
        WireType::Int8 => {
            i8::lemma_wire_dec(m->Int8_0, rest);
        },
        WireType::UInt16 => {
            u16::lemma_wire_dec(m->UInt16_0, rest);
        },
        WireType::Int16 => {
            i16::lemma_wire_dec(m->Int16_0, rest);
        },
        WireType::UInt32 => {
            u32::lemma_wire_dec(m->UInt32_0, rest);
        },
        WireType::Int32 => {
            i32::lemma_wire_dec(m->Int32_0, rest);
        },
        WireType::UInt64 => {
            u64::lemma_wire_dec(m->UInt64_0, rest);
        },
        WireType::Int64 => {
            i64::lemma_wire_dec(m->Int64_0, rest);
        },
        WireType::Float32 => {
            u32::lemma_wire_dec(m->Float32Bits_0, rest);
        },
        WireType::Float64 => {
            u64::lemma_wire_dec(m->Float64Bits_0, rest);
        },
        WireType::Text => {
            String::lemma_wire_dec(m->Text_0, rest);
        },
        WireType::GuidType => {
            Guid::lemma_wire_dec(m->GuidVal_0, rest);
        },
        WireType::DateType => {
            Date::lemma_wire_dec(m->DateVal_0, rest);
        },
        WireType::List(e) => {
            let ms = m->List_0;
            let inner = enc_each(*e, ms);
            u32::lemma_wire_dec(ms.len() as u32, inner + rest);
            assert(enc(t, m) + rest =~= u32::wire(ms.len() as u32) + (inner + rest));
            assert((u32::wire(ms.len() as u32) + (inner + rest)).skip(4) =~= inner + rest);
            lemma_enc_dec_each(*e, ms, rest);
        },
        WireType::Assoc(kt, vt) => {
            let ps = m->Assoc_0;
            let inner = enc_pairs(*kt, *vt, ps);
            u32::lemma_wire_dec(ps.len() as u32, inner + rest);
            assert(enc(t, m) + rest =~= u32::wire(ps.len() as u32) + (inner + rest));
            assert((u32::wire(ps.len() as u32) + (inner + rest)).skip(4) =~= inner + rest);
            lemma_enc_dec_pairs(*kt, *vt, ps, rest);
        },
        WireType::Record(ts) => {
            lemma_enc_dec_fields(ts@, m->Record_0, rest);
        },
        WireType::Message(fs) => {
            let os = m->MessageVal_0;
            let body = enc_opts(fs@, os) + seq![0u8];
            u32::lemma_wire_dec(body.len() as u32, body + rest);
            let s = enc(t, m) + rest;
            assert(s =~= u32::wire(body.len() as u32) + (body + rest));
            assert(s.subrange(4, 4 + body.len() as int) =~= body);
            let init = Seq::new(fs@.len(), |i: int| None::<ValModel>);
            assert(fs@.subrange(0, fs@.len() as int) =~= fs@);
            lemma_msg_opts(fs@, 0, os, init, Seq::empty());
            assert(enc_opts(fs@.subrange(0, fs@.len() as int), os) + seq![0u8] + Seq::<
                u8,
            >::empty() =~= body);
            assert(overlay(init, 0, os) =~= os);
        },
        WireType::Choice(fs) => {
            let tag = m->ChoiceVal_0;
            let p = m->ChoiceVal_1;
            lemma_choice_first(fs@, tag, *p);
            let k = find_first(fs@, tag);
            lemma_choice_at(fs@, tag, *p, k);
            let pe = enc_choice(fs@, tag, *p);
            let framed = seq![tag] + pe;
            u32::lemma_wire_dec((pe.len() + 1) as u32, framed + rest);
            let s = enc(t, m) + rest;
            assert(s =~= u32::wire((pe.len() + 1) as u32) + (framed + rest));
            assert(s.subrange(4, 4 + framed.len() as int) =~= framed);
            assert(framed[0] == tag);
            assert(framed.subrange(1, framed.len() as int) =~= pe);
            lemma_dec_tagged_at(fs@, tag, pe, k);
            lemma_wf_wire_tagged_index(fs@, k);
            lemma_enc_dec(fs@[k].1, *p, Seq::empty());
            assert(enc(fs@[k].1, *p) + Seq::<u8>::empty() =~= pe);
        },
        WireType::Discrim(_) => {
            u32::lemma_wire_dec(m->EnumVal_0, rest);
        },
    }
}

/// Round-trip law for whole buffers: the bytes `encode_value` produces
/// decode back to the value that was encoded.
pub proof fn lemma_value_round_trip(t: WireType, m: ValModel)
    requires
        wf_wire(t),
        conforms(t, m),
        enc_ok(t, m),
    ensures
        dec(t, enc(t, m)) == Ok::<(ValModel, int), Error>((m, enc(t, m).len() as int)),
{
    lemma_enc_dec(t, m, Seq::empty());
    assert(enc(t, m) + Seq::<u8>::empty() =~= enc(t, m));
}


/// Truncation law for array elements: decoding a strict prefix of the
/// elements' encoding fails with `UnexpectedEnd`.
pub proof fn lemma_trunc_each(e: WireType, ms: Seq<ValModel>, k: int)
    requires
        wf_wire(e),
        conforms_each(e, ms),
        enc_ok_each(e, ms),
        0 <= k < enc_each(e, ms).len(),
    ensures
        dec_each(e, ms.len(), enc_each(e, ms).take(k)) == Err::<(Seq<ValModel>, int), Error>(
            Error::UnexpectedEnd,
        ),
    decreases ms, 0nat,
{
    let ms2 = ms.subrange(1, ms.len() as int);
    let w0 = enc(e, ms[0]);
    let wr = enc_each(e, ms2);
    if k < w0.len() {
        assert(enc_each(e, ms).take(k) =~= w0.take(k));
        lemma_trunc(e, ms[0], k);
    } else {
        assert(enc_each(e, ms).take(k) =~= w0 + wr.take(k - w0.len()));
        lemma_enc_dec(e, ms[0], wr.take(k - w0.len()));
        assert((w0 + wr.take(k - w0.len())).skip(w0.len() as int) =~= wr.take(k - w0.len()));
        lemma_trunc_each(e, ms2, k - w0.len());
    }
}

/// Truncation law for map entries: decoding a strict prefix of the entries'
/// encoding fails with `UnexpectedEnd`.
pub proof fn lemma_trunc_pairs(kt: WireType, vt: WireType, ps: Seq<(ValModel, ValModel)>, k: int)
    requires
        wf_wire(kt),
        wf_wire(vt),
        conforms_pairs(kt, vt, ps),
        enc_ok_pairs(kt, vt, ps),
        0 <= k < enc_pairs(kt, vt, ps).len(),
    ensures
        dec_pairs(kt, vt, ps.len(), enc_pairs(kt, vt, ps).take(k)) == Err::<
            (Seq<(ValModel, ValModel)>, int),
            Error,
        >(Error::UnexpectedEnd),
    decreases ps, 0nat,
{
    let ps2 = ps.subrange(1, ps.len() as int);
    let wk = enc(kt, ps[0].0);
    let wv = enc(vt, ps[0].1);
    let wr = enc_pairs(kt, vt, ps2);
    if k < wk.len() {
        assert(enc_pairs(kt, vt, ps).take(k) =~= wk.take(k));
        lemma_trunc(kt, ps[0].0, k);
    } else if k < wk.len() + wv.len() {
        assert(enc_pairs(kt, vt, ps).take(k) =~= wk + wv.take(k - wk.len()));
        lemma_enc_dec(kt, ps[0].0, wv.take(k - wk.len()));
        assert((wk + wv.take(k - wk.len())).skip(wk.len() as int) =~= wv.take(k - wk.len()));
        lemma_trunc(vt, ps[0].1, k - wk.len());
    } else {
        let k2 = k - wk.len() - wv.len();
        assert(enc_pairs(kt, vt, ps).take(k) =~= wk + (wv + wr.take(k2)));
        lemma_enc_dec(kt, ps[0].0, wv + wr.take(k2));
        assert((wk + (wv + wr.take(k2))).skip(wk.len() as int) =~= wv + wr.take(k2));
        lemma_enc_dec(vt, ps[0].1, wr.take(k2));
        assert((wv + wr.take(k2)).skip(wv.len() as int) =~= wr.take(k2));
        assert((wk + (wv + wr.take(k2))).skip(wk.len() as int + wv.len() as int) =~= wr.take(k2));
        lemma_trunc_pairs(kt, vt, ps2, k2);
    }
}

/// Truncation law for struct fields: decoding a strict prefix of the
/// fields' encoding fails with `UnexpectedEnd` at the first field that
/// cannot be fully read.
pub proof fn lemma_trunc_fields(ts: Seq<WireType>, ms: Seq<ValModel>, k: int)
    requires
        wf_wire_list(ts),
        ms.len() == ts.len(),
        conforms_fields(ts, ms),
        enc_ok_fields(ts, ms),
        0 <= k < enc_fields(ts, ms).len(),
    ensures
        dec_fields(ts, enc_fields(ts, ms).take(k)) == Err::<(Seq<ValModel>, int), Error>(
            Error::UnexpectedEnd,
        ),
    decreases ms, 0nat,
{
    let ts2 = ts.subrange(1, ts.len() as int);
    let ms2 = ms.subrange(1, ms.len() as int);
    let w0 = enc(ts[0], ms[0]);
    let wr = enc_fields(ts2, ms2);
    lemma_wf_wire_list_index(ts, 0);
    if k < w0.len() {
        assert(enc_fields(ts, ms).take(k) =~= w0.take(k));
        lemma_trunc(ts[0], ms[0], k);
    } else {
        assert(enc_fields(ts, ms).take(k) =~= w0 + wr.take(k - w0.len()));
        lemma_enc_dec(ts[0], ms[0], wr.take(k - w0.len()));
        assert((w0 + wr.take(k - w0.len())).skip(w0.len() as int) =~= wr.take(k - w0.len()));
        lemma_trunc_fields(ts2, ms2, k - w0.len());
    }
}

/// Truncation law: decoding any strict prefix of a value's encoding fails
/// with `UnexpectedEnd` — no other error and no partial value can come out
/// of a buffer that merely ends too soon.
pub proof fn lemma_trunc(t: WireType, m: ValModel, k: int)
    requires
        wf_wire(t),
        conforms(t, m),
        enc_ok(t, m),
        0 <= k < enc(t, m).len(),
    ensures
        dec(t, enc(t, m).take(k)) == Err::<(ValModel, int), Error>(Error::UnexpectedEnd),
    decreases m, 1nat,
{
    lemma_auto_spec_u16_to_from_le_bytes();
    lemma_auto_spec_u32_to_from_le_bytes();
    lemma_auto_spec_u64_to_from_le_bytes();
    match t {
        WireType::Text => {
            let b = vstd::utf8::encode_utf8(m->Text_0);
            let s = enc(t, m).take(k);
            if k >= 4 {
                assert(s.take(4) =~= spec_u32_to_le_bytes(b.len() as u32));
            }
        },
        WireType::List(e) => {
            let ms = m->List_0;
            let inner = enc_each(*e, ms);
            let s = enc(t, m).take(k);
            if k >= 4 {
                assert(s.take(4) =~= spec_u32_to_le_bytes(ms.len() as u32));
                assert(s.skip(4) =~= inner.take(k - 4));
                lemma_trunc_each(*e, ms, k - 4);
            }
        },
        WireType::Assoc(kt, vt) => {
            let ps = m->Assoc_0;
            let inner = enc_pairs(*kt, *vt, ps);
            let s = enc(t, m).take(k);
            if k >= 4 {
                assert(s.take(4) =~= spec_u32_to_le_bytes(ps.len() as u32));
                assert(s.skip(4) =~= inner.take(k - 4));
                lemma_trunc_pairs(*kt, *vt, ps, k - 4);
            }
        },
        WireType::Record(ts) => {
            lemma_trunc_fields(ts@, m->Record_0, k);
        },
        WireType::Message(fs) => {
            let os = m->MessageVal_0;
            let body = enc_opts(fs@, os) + seq![0u8];
            let s = enc(t, m).take(k);
            if k >= 4 {
                assert(s.take(4) =~= spec_u32_to_le_bytes(body.len() as u32));
                assert(s.len() - 4 < body.len());
            }
        },
        WireType::Choice(fs) => {
            let pe = enc_choice(fs@, m->ChoiceVal_0, *m->ChoiceVal_1);
            let s = enc(t, m).take(k);
            if k >= 4 {
                assert(s.take(4) =~= spec_u32_to_le_bytes((pe.len() + 1) as u32));
                assert(s.len() - 4 < pe.len() + 1);
            }
        },
        WireType::GuidType => {
            assert(enc(t, m).take(k).len() < 16);
        },
        _ => {
        },
    }
}


/// Error law for enums: a decoded discriminant that matches no declared
/// member fails with `UnknownEnumValue`; enums are not forward compatible.
pub proof fn lemma_unknown_enum_value(t: WireType, s: Seq<u8>)
    requires
        t is Discrim,
        s.len() >= 4,
        !t->Discrim_0@.contains(spec_u32_from_le_bytes(s.take(4))),
    ensures
        dec(t, s) == Err::<(ValModel, int), Error>(Error::UnknownEnumValue),
{
}

/// Error law for unions: a decoded variant tag that matches no declared
/// variant fails with `UnknownUnionTag`.
pub proof fn lemma_unknown_union_tag(t: WireType, s: Seq<u8>)
    requires
        t is Choice,
        s.len() >= 4,
        spec_u32_from_le_bytes(s.take(4)) >= 1,
        s.len() - 4 >= spec_u32_from_le_bytes(s.take(4)),
        forall|j: int|
            0 <= j < t->Choice_0@.len() ==> (#[trigger] t->Choice_0@[j].0) != s[4],
    ensures
        dec(t, s) == Err::<(ValModel, int), Error>(Error::UnknownUnionTag),
{
    let n = spec_u32_from_le_bytes(s.take(4)) as int;
    let body = s.subrange(4, 4 + n);
    assert(body[0] == s[4]);
    lemma_dec_tagged_none(t->Choice_0@, body[0], body.subrange(1, body.len() as int));
}

/// Error law for strings: bytes that are not valid UTF-8 fail with
/// `InvalidUtf8`, and with nothing else.
pub proof fn lemma_invalid_utf8(t: WireType, s: Seq<u8>)
    requires
        t is Text,
        s.len() >= 4,
        s.len() - 4 >= spec_u32_from_le_bytes(s.take(4)),
        !vstd::utf8::valid_utf8(s.subrange(4, 4 + spec_u32_from_le_bytes(s.take(4)) as int)),
    ensures
        dec(t, s) == Err::<(ValModel, int), Error>(Error::InvalidUtf8),
{
}

} // verus!
