use vstd::prelude::*;

use crate::date::Date;
use crate::guid::Guid;
use crate::mapper::WireType;

verus! {

/// A runtime value of some schema type, as the codec interpreter moves it.
/// Floating-point fields are carried as their raw bits; the codec never
/// interprets them, it only moves the bytes.
#[derive(Debug)]
pub enum Value {
    Boolean(bool),
    UInt8(u8),
    Int8(i8),
    UInt16(u16),
    Int16(i16),
    UInt32(u32),
    Int32(i32),
    UInt64(u64),
    Int64(i64),
    Float32Bits(u32),
    Float64Bits(u64),
    Text(String),
    GuidVal(Guid),
    DateVal(Date),
    /// An array value: the elements in order.
    List(Vec<Value>),
    /// A map value: the entries in encode order. Decoding keeps every entry
    /// in wire order; a reader that wants one value per key takes the last
    /// entry for it, as the wire rules say later entries overwrite earlier
    /// ones.
    Assoc(Vec<(Value, Value)>),
    /// A struct value: one value per declared field, in order.
    Record(Vec<Value>),
    /// A message value: per declared field, the value if present.
    MessageVal(Vec<Option<Value>>),
    /// A union value: the variant tag and its payload.
    ChoiceVal(u8, Box<Value>),
    /// An enum value: the declared discriminant.
    EnumVal(u32),
}

/// The mathematical model of a [`Value`]: the same shape over `Seq` and
/// `Seq<char>`, which the codec contracts are stated over.
pub enum ValModel {
    Boolean(bool),
    UInt8(u8),
    Int8(i8),
    UInt16(u16),
    Int16(i16),
    UInt32(u32),
    Int32(i32),
    UInt64(u64),
    Int64(i64),
    Float32Bits(u32),
    Float64Bits(u64),
    Text(Seq<char>),
    GuidVal(Guid),
    DateVal(Date),
    List(Seq<ValModel>),
    Assoc(Seq<(ValModel, ValModel)>),
    Record(Seq<ValModel>),
    MessageVal(Seq<Option<ValModel>>),
    ChoiceVal(u8, Box<ValModel>),
    EnumVal(u32),
}

/// The model of a value.
pub open spec fn vm(v: Value) -> ValModel
    decreases v,
{
    match v {
        Value::Boolean(x) => ValModel::Boolean(x),
        Value::UInt8(x) => ValModel::UInt8(x),
        Value::Int8(x) => ValModel::Int8(x),
        Value::UInt16(x) => ValModel::UInt16(x),
        Value::Int16(x) => ValModel::Int16(x),
        Value::UInt32(x) => ValModel::UInt32(x),
        Value::Int32(x) => ValModel::Int32(x),
        Value::UInt64(x) => ValModel::UInt64(x),
        Value::Int64(x) => ValModel::Int64(x),
        Value::Float32Bits(x) => ValModel::Float32Bits(x),
        Value::Float64Bits(x) => ValModel::Float64Bits(x),
        Value::Text(s) => ValModel::Text(s@),
        Value::GuidVal(g) => ValModel::GuidVal(g),
        Value::DateVal(d) => ValModel::DateVal(d),
        Value::List(vs) => ValModel::List(vm_seq(vs@)),
        Value::Assoc(ps) => ValModel::Assoc(vm_pairs(ps@)),
        Value::Record(vs) => ValModel::Record(vm_seq(vs@)),
        Value::MessageVal(os) => ValModel::MessageVal(vm_opts(os@)),
        Value::ChoiceVal(tag, p) => ValModel::ChoiceVal(tag, Box::new(vm(*p))),
        Value::EnumVal(x) => ValModel::EnumVal(x),
    }
}

/// The models of a sequence of values.
pub open spec fn vm_seq(vs: Seq<Value>) -> Seq<ValModel>
    decreases vs,
{
    if vs.len() == 0 {
        Seq::empty()
    } else {
        seq![vm(vs[0])] + vm_seq(vs.subrange(1, vs.len() as int))
    }
}

/// The models of a sequence of key-value pairs.
pub open spec fn vm_pairs(ps: Seq<(Value, Value)>) -> Seq<(ValModel, ValModel)>
    decreases ps,
{
    if ps.len() == 0 {
        Seq::empty()
    } else {
        seq![(vm(ps[0].0), vm(ps[0].1))] + vm_pairs(ps.subrange(1, ps.len() as int))
    }
}

/// The models of a sequence of optional values.
pub open spec fn vm_opts(os: Seq<Option<Value>>) -> Seq<Option<ValModel>>
    decreases os,
{
    if os.len() == 0 {
        Seq::empty()
    } else {
        seq![
            match os[0] {
                Some(v) => Some(vm(v)),
                None => None,
            },
        ] + vm_opts(os.subrange(1, os.len() as int))
    }
}

/// `vm_seq` maps the model pointwise.
pub proof fn lemma_vm_seq(vs: Seq<Value>)
    ensures
        vm_seq(vs).len() == vs.len(),
        forall|i: int| 0 <= i < vs.len() ==> #[trigger] vm_seq(vs)[i] == vm(vs[i]),
    decreases vs,
{
    if vs.len() > 0 {
        let sub = vs.subrange(1, vs.len() as int);
        lemma_vm_seq(sub);
        assert forall|i: int| 0 <= i < vs.len() implies #[trigger] vm_seq(vs)[i] == vm(vs[i]) by {
            if i > 0 {
                assert(sub[i - 1] == vs[i]);
                assert(vm_seq(vs)[i] == vm_seq(sub)[i - 1]);
            }
        }
    }
}

/// `vm_pairs` maps the model pointwise.
pub proof fn lemma_vm_pairs(ps: Seq<(Value, Value)>)
    ensures
        vm_pairs(ps).len() == ps.len(),
        forall|i: int|
            0 <= i < ps.len() ==> #[trigger] vm_pairs(ps)[i] == (vm(ps[i].0), vm(ps[i].1)),
    decreases ps,
{
    if ps.len() > 0 {
        let sub = ps.subrange(1, ps.len() as int);
        lemma_vm_pairs(sub);
        assert forall|i: int|
            0 <= i < ps.len() implies #[trigger] vm_pairs(ps)[i] == (vm(ps[i].0), vm(ps[i].1)) by {
            if i > 0 {
                assert(sub[i - 1] == ps[i]);
                assert(vm_pairs(ps)[i] == vm_pairs(sub)[i - 1]);
            }
        }
    }
}

/// `vm_opts` maps the model pointwise.
pub proof fn lemma_vm_opts(os: Seq<Option<Value>>)
    ensures
        vm_opts(os).len() == os.len(),
        forall|i: int|
            0 <= i < os.len() ==> #[trigger] vm_opts(os)[i] == (match os[i] {
                Some(v) => Some(vm(v)),
                None => None::<ValModel>,
            }),
    decreases os,
{
    if os.len() > 0 {
        let sub = os.subrange(1, os.len() as int);
        lemma_vm_opts(sub);
        assert forall|i: int|
            0 <= i < os.len() implies #[trigger] vm_opts(os)[i] == (match os[i] {
            Some(v) => Some(vm(v)),
            None => None::<ValModel>,
        }) by {
            if i > 0 {
                assert(sub[i - 1] == os[i]);
                assert(vm_opts(os)[i] == vm_opts(sub)[i - 1]);
            }
        }
    }
}

/// The value `m` inhabits the type `t`: every constructor matches its wire
/// type, every element, field and payload recursively conforms, and an enum
/// value is one of the declared discriminants.
pub open spec fn conforms(t: WireType, m: ValModel) -> bool
    decreases m, 0nat,
{
    match t {
        WireType::Boolean => m is Boolean,
        WireType::UInt8 => m is UInt8,
        WireType::Int8 => m is Int8,
        WireType::UInt16 => m is UInt16,
        WireType::Int16 => m is Int16,
        WireType::UInt32 => m is UInt32,
        WireType::Int32 => m is Int32,
        WireType::UInt64 => m is UInt64,
        WireType::Int64 => m is Int64,
        WireType::Float32 => m is Float32Bits,
        WireType::Float64 => m is Float64Bits,
        WireType::Text => m is Text,
        WireType::GuidType => m is GuidVal,
        WireType::DateType => m is DateVal,
        WireType::List(e) => m matches ValModel::List(ms) && conforms_each(*e, ms),
        WireType::Assoc(kt, vt) => m matches ValModel::Assoc(ps) && conforms_pairs(*kt, *vt, ps),
        WireType::Record(ts) => m matches ValModel::Record(ms) && ms.len() == ts@.len()
            && conforms_fields(ts@, ms),
        WireType::Message(fs) => m matches ValModel::MessageVal(os) && os.len() == fs@.len()
            && conforms_opts(fs@, os),
        WireType::Choice(fs) => m matches ValModel::ChoiceVal(tag, p) && conforms_choice(
            fs@,
            tag,
            *p,
        ),
        WireType::Discrim(vals) => m matches ValModel::EnumVal(x) && vals@.contains(x),
    }
}

/// Every element conforms to the element type.
pub open spec fn conforms_each(e: WireType, ms: Seq<ValModel>) -> bool
    decreases ms, 0nat,
{
    ms.len() == 0 || (conforms(e, ms[0]) && conforms_each(e, ms.subrange(1, ms.len() as int)))
}

/// Every key and value conforms to the key and value types.
pub open spec fn conforms_pairs(kt: WireType, vt: WireType, ps: Seq<(ValModel, ValModel)>) -> bool
    decreases ps, 0nat,
{
    ps.len() == 0 || (conforms(kt, ps[0].0) && conforms(vt, ps[0].1) && conforms_pairs(
        kt,
        vt,
        ps.subrange(1, ps.len() as int),
    ))
}

/// Every field value conforms to its field type, position by position.
pub open spec fn conforms_fields(ts: Seq<WireType>, ms: Seq<ValModel>) -> bool
    decreases ms, 0nat,
{
    ms.len() == 0 || (ts.len() > 0 && conforms(ts[0], ms[0]) && conforms_fields(
        ts.subrange(1, ts.len() as int),
        ms.subrange(1, ms.len() as int),
    ))
}

/// Every present field value conforms to its declared type, position by
/// position.
pub open spec fn conforms_opts(fs: Seq<(u8, WireType)>, os: Seq<Option<ValModel>>) -> bool
    decreases os, 0nat,
{
    os.len() == 0 || (fs.len() > 0 && (match os[0] {
        Some(m) => conforms(fs[0].1, m),
        None => true,
    }) && conforms_opts(fs.subrange(1, fs.len() as int), os.subrange(1, os.len() as int)))
}

/// The tag names a declared variant and the payload conforms to the first
/// variant carrying that tag.
pub open spec fn conforms_choice(fs: Seq<(u8, WireType)>, tag: u8, p: ValModel) -> bool
    decreases p, fs.len() + 1,
{
    if fs.len() == 0 {
        false
    } else if fs[0].0 == tag {
        conforms(fs[0].1, p)
    } else {
        conforms_choice(fs.subrange(1, fs.len() as int), tag, p)
    }
}

} // verus!
