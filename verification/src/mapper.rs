use vstd::prelude::*;

use crate::parse::str_eq;
use crate::schema::{
    kind_size, lemma_message_field_size, lemma_struct_field_size, lemma_variant_size,
    lemma_wf_variant_defs_index, message_fields_size, struct_fields_size, ty_size, variants_size,
    wf_definition, wf_kind, DefKind, Definition, MessageField, StructField, TypeExpr, UnionVariant,
};

verus! {

/// A self-contained wire-type descriptor: the codec interpreter's view of a
/// schema type, with every named reference resolved and inlined. Each
/// constructor carries exactly what its wire rule needs.
#[derive(Debug)]
pub enum WireType {
    Boolean,
    UInt8,
    Int8,
    UInt16,
    Int16,
    UInt32,
    Int32,
    UInt64,
    Int64,
    /// Four raw bytes, moved as bits; the codec never interprets them.
    Float32,
    /// Eight raw bytes, moved as bits; the codec never interprets them.
    Float64,
    Text,
    GuidType,
    DateType,
    /// An array: a `u32` count, then each element.
    List(Box<WireType>),
    /// A map: a `u32` count, then each key-value pair.
    Assoc(Box<WireType>, Box<WireType>),
    /// A struct: the fields in declared order, bare, with no framing.
    Record(Vec<WireType>),
    /// A message: the declared fields as (tag, type), in declared order.
    Message(Vec<(u8, WireType)>),
    /// A union: the declared variants as (tag, payload type).
    Choice(Vec<(u8, WireType)>),
    /// An enum: the declared discriminants.
    Discrim(Vec<u32>),
}

/// Why a parsed schema could not be mapped to descriptors.
#[derive(Debug, Clone, Copy, PartialEq, Eq, Structural)]
pub enum MapError {
    /// A named reference matches no definition in the schema.
    UnknownTypeName,
    /// Named references form a cycle; no finite value could have such a
    /// type.
    CyclicReference,
}

/// A structural measure on descriptors, used to order the codec's recursion.
pub open spec fn wire_height(t: WireType) -> nat
    decreases t,
{
    match t {
        WireType::List(e) => wire_height(*e) + 2,
        WireType::Assoc(k, v) => wire_height(*k) + wire_height(*v) + 2,
        WireType::Record(ts) => height_list(ts@) + 2,
        WireType::Message(fs) => height_tagged(fs@) + 2,
        WireType::Choice(fs) => height_tagged(fs@) + 2,
        _ => 1,
    }
}

/// The combined measure of a list of descriptors.
pub open spec fn height_list(ts: Seq<WireType>) -> nat
    decreases ts,
{
    if ts.len() == 0 {
        1
    } else {
        wire_height(ts[0]) + height_list(ts.subrange(1, ts.len() as int)) + 1
    }
}

/// The combined measure of a list of tagged descriptors.
pub open spec fn height_tagged(fs: Seq<(u8, WireType)>) -> nat
    decreases fs,
{
    if fs.len() == 0 {
        1
    } else {
        wire_height(fs[0].1) + height_tagged(fs.subrange(1, fs.len() as int)) + 1
    }
}

/// Each descriptor of a list is smaller than the whole list.
pub proof fn lemma_height_list_member(ts: Seq<WireType>, i: int)
    requires
        0 <= i < ts.len(),
    ensures
        wire_height(ts[i]) < height_list(ts),
    decreases ts,
{
    if i > 0 {
        lemma_height_list_member(ts.subrange(1, ts.len() as int), i - 1);
    }
}

/// Each descriptor of a tagged list is smaller than the whole list.
pub proof fn lemma_height_tagged_member(fs: Seq<(u8, WireType)>, i: int)
    requires
        0 <= i < fs.len(),
    ensures
        wire_height(fs[i].1) < height_tagged(fs),
    decreases fs,
{
    if i > 0 {
        lemma_height_tagged_member(fs.subrange(1, fs.len() as int), i - 1);
    }
}

/// Tags of a tagged descriptor list are pairwise distinct.
pub open spec fn distinct_tags(fs: Seq<(u8, WireType)>) -> bool {
    forall|i: int, j: int| 0 <= i < j < fs.len() ==> fs[i].0 != fs[j].0
}

/// A well-formed descriptor: message tags are nonzero and distinct, union
/// tags distinct, enum discriminants distinct, recursively.
pub open spec fn wf_wire(t: WireType) -> bool
    decreases t,
{
    match t {
        WireType::List(e) => wf_wire(*e),
        WireType::Assoc(k, v) => wf_wire(*k) && wf_wire(*v),
        WireType::Record(ts) => wf_wire_list(ts@),
        WireType::Message(fs) => distinct_tags(fs@) && (forall|i: int|
            0 <= i < fs@.len() ==> (#[trigger] fs@[i].0) != 0) && wf_wire_tagged(fs@),
        WireType::Choice(fs) => distinct_tags(fs@) && wf_wire_tagged(fs@),
        WireType::Discrim(vals) => forall|i: int, j: int|
            0 <= i < j < vals@.len() ==> vals@[i] != vals@[j],
        _ => true,
    }
}

/// Every descriptor of the list is well formed.
pub open spec fn wf_wire_list(ts: Seq<WireType>) -> bool
    decreases ts,
{
    ts.len() == 0 || (wf_wire(ts[0]) && wf_wire_list(ts.subrange(1, ts.len() as int)))
}

/// Every descriptor of the tagged list is well formed.
pub open spec fn wf_wire_tagged(fs: Seq<(u8, WireType)>) -> bool
    decreases fs,
{
    fs.len() == 0 || (wf_wire(fs[0].1) && wf_wire_tagged(fs.subrange(1, fs.len() as int)))
}

/// Each member of a well-formed descriptor list is well formed.
pub proof fn lemma_wf_wire_list_index(ts: Seq<WireType>, i: int)
    requires
        wf_wire_list(ts),
        0 <= i < ts.len(),
    ensures
        wf_wire(ts[i]),
    decreases ts,
{
    if i > 0 {
        lemma_wf_wire_list_index(ts.subrange(1, ts.len() as int), i - 1);
    }
}

/// Each member of a well-formed tagged descriptor list is well formed.
pub proof fn lemma_wf_wire_tagged_index(fs: Seq<(u8, WireType)>, i: int)
    requires
        wf_wire_tagged(fs),
        0 <= i < fs.len(),
    ensures
        wf_wire(fs[i].1),
    decreases fs,
{
    if i > 0 {
        lemma_wf_wire_tagged_index(fs.subrange(1, fs.len() as int), i - 1);
    }
}

/// Appending keeps every descriptor of a list well formed.
pub proof fn lemma_wf_wire_list_push(ts: Seq<WireType>, t: WireType)
    requires
        wf_wire_list(ts),
        wf_wire(t),
    ensures
        wf_wire_list(ts.push(t)),
    decreases ts,
{
    if ts.len() == 0 {
        assert(ts.push(t) =~= seq![t]);
        assert((seq![t]).subrange(1, 1) =~= Seq::<WireType>::empty());
        assert(wf_wire_list(Seq::<WireType>::empty()));
        assert((seq![t])[0] == t);
    } else {
        assert(ts.push(t).subrange(1, ts.len() as int + 1) =~= ts.subrange(1, ts.len() as int).push(t));
        lemma_wf_wire_list_push(ts.subrange(1, ts.len() as int), t);
        assert(ts.push(t)[0] == ts[0]);
    }
}

/// Appending keeps every descriptor of a tagged list well formed.
pub proof fn lemma_wf_wire_tagged_push(fs: Seq<(u8, WireType)>, f: (u8, WireType))
    requires
        wf_wire_tagged(fs),
        wf_wire(f.1),
    ensures
        wf_wire_tagged(fs.push(f)),
    decreases fs,
{
    if fs.len() == 0 {
        assert(fs.push(f) =~= seq![f]);
        assert((seq![f]).subrange(1, 1) =~= Seq::<(u8, WireType)>::empty());
        assert(wf_wire_tagged(Seq::<(u8, WireType)>::empty()));
        assert((seq![f])[0] == f);
    } else {
        assert(fs.push(f).subrange(1, fs.len() as int + 1) =~= fs.subrange(1, fs.len() as int).push(f));
        lemma_wf_wire_tagged_push(fs.subrange(1, fs.len() as int), f);
        assert(fs.push(f)[0] == fs[0]);
    }
}

/// The mathematical model of a descriptor: the same shape over `Seq`, which
/// the mapper's contracts are stated over.
pub enum WireTypeM {
    Boolean,
    UInt8,
    Int8,
    UInt16,
    Int16,
    UInt32,
    Int32,
    UInt64,
    Int64,
    Float32,
    Float64,
    Text,
    GuidType,
    DateType,
    List(Box<WireTypeM>),
    Assoc(Box<WireTypeM>, Box<WireTypeM>),
    Record(Seq<WireTypeM>),
    Message(Seq<(u8, WireTypeM)>),
    Choice(Seq<(u8, WireTypeM)>),
    Discrim(Seq<u32>),
}

/// The model of a descriptor.
pub open spec fn wt_view(t: WireType) -> WireTypeM
    decreases t,
{
    match t {
        WireType::Boolean => WireTypeM::Boolean,
        WireType::UInt8 => WireTypeM::UInt8,
        WireType::Int8 => WireTypeM::Int8,
        WireType::UInt16 => WireTypeM::UInt16,
        WireType::Int16 => WireTypeM::Int16,
        WireType::UInt32 => WireTypeM::UInt32,
        WireType::Int32 => WireTypeM::Int32,
        WireType::UInt64 => WireTypeM::UInt64,
        WireType::Int64 => WireTypeM::Int64,
        WireType::Float32 => WireTypeM::Float32,
        WireType::Float64 => WireTypeM::Float64,
        WireType::Text => WireTypeM::Text,
        WireType::GuidType => WireTypeM::GuidType,
        WireType::DateType => WireTypeM::DateType,
        WireType::List(e) => WireTypeM::List(Box::new(wt_view(*e))),
        WireType::Assoc(k, v) => WireTypeM::Assoc(Box::new(wt_view(*k)), Box::new(wt_view(*v))),
        WireType::Record(ts) => WireTypeM::Record(wt_view_seq(ts@)),
        WireType::Message(fs) => WireTypeM::Message(wt_view_tagged(fs@)),
        WireType::Choice(fs) => WireTypeM::Choice(wt_view_tagged(fs@)),
        WireType::Discrim(vals) => WireTypeM::Discrim(vals@),
    }
}

/// The models of a sequence of descriptors.
pub open spec fn wt_view_seq(ts: Seq<WireType>) -> Seq<WireTypeM>
    decreases ts,
{
    if ts.len() == 0 {
        Seq::empty()
    } else {
        seq![wt_view(ts[0])] + wt_view_seq(ts.subrange(1, ts.len() as int))
    }
}

/// The models of a sequence of tagged descriptors.
pub open spec fn wt_view_tagged(fs: Seq<(u8, WireType)>) -> Seq<(u8, WireTypeM)>
    decreases fs,
{
    if fs.len() == 0 {
        Seq::empty()
    } else {
        seq![(fs[0].0, wt_view(fs[0].1))] + wt_view_tagged(fs.subrange(1, fs.len() as int))
    }
}

/// `wt_view_seq` maps the model pointwise.
pub proof fn lemma_wt_view_seq(ts: Seq<WireType>)
    ensures
        wt_view_seq(ts).len() == ts.len(),
        forall|i: int| 0 <= i < ts.len() ==> #[trigger] wt_view_seq(ts)[i] == wt_view(ts[i]),
    decreases ts,
{
    if ts.len() > 0 {
        let sub = ts.subrange(1, ts.len() as int);
        lemma_wt_view_seq(sub);
        assert forall|i: int|
            0 <= i < ts.len() implies #[trigger] wt_view_seq(ts)[i] == wt_view(ts[i]) by {
            if i > 0 {
                assert(sub[i - 1] == ts[i]);
                assert(wt_view_seq(ts)[i] == wt_view_seq(sub)[i - 1]);
            }
        }
    }
}

/// `wt_view_tagged` maps the model pointwise.
pub proof fn lemma_wt_view_tagged(fs: Seq<(u8, WireType)>)
    ensures
        wt_view_tagged(fs).len() == fs.len(),
        forall|i: int|
            0 <= i < fs.len() ==> #[trigger] wt_view_tagged(fs)[i] == (
                fs[i].0,
                wt_view(fs[i].1),
            ),
    decreases fs,
{
    if fs.len() > 0 {
        let sub = fs.subrange(1, fs.len() as int);
        lemma_wt_view_tagged(sub);
        assert forall|i: int|
            0 <= i < fs.len() implies #[trigger] wt_view_tagged(fs)[i] == (
            fs[i].0,
            wt_view(fs[i].1),
        ) by {
            if i > 0 {
                assert(sub[i - 1] == fs[i]);
                assert(wt_view_tagged(fs)[i] == wt_view_tagged(sub)[i - 1]);
            }
        }
    }
}

/// The position of the first definition named `name`, or -1.
pub open spec fn spec_find_def(defs: Seq<Definition>, name: Seq<char>) -> int
    decreases defs,
{
    if defs.len() == 0 {
        -1
    } else if defs[0].name@ == name {
        0
    } else {
        let r = spec_find_def(defs.subrange(1, defs.len() as int), name);
        if r < 0 {
            -1
        } else {
            r + 1
        }
    }
}

/// When position `k` holds the first definition with the given name,
/// `spec_find_def` finds exactly it.
pub proof fn lemma_spec_find_at(defs: Seq<Definition>, name: Seq<char>, k: int)
    requires
        0 <= k < defs.len(),
        defs[k].name@ == name,
        forall|j: int| 0 <= j < k ==> (#[trigger] defs[j].name@) != name,
    ensures
        spec_find_def(defs, name) == k,
    decreases defs,
{
    if k > 0 {
        let sub = defs.subrange(1, defs.len() as int);
        assert forall|j: int| 0 <= j < k - 1 implies (#[trigger] sub[j].name@) != name by {
            assert(sub[j] == defs[j + 1]);
        }
        lemma_spec_find_at(sub, name, k - 1);
        assert(sub[k - 1] == defs[k]);
    }
}

/// When no definition carries the name, `spec_find_def` finds nothing.
pub proof fn lemma_spec_find_none(defs: Seq<Definition>, name: Seq<char>)
    requires
        forall|j: int| 0 <= j < defs.len() ==> (#[trigger] defs[j].name@) != name,
    ensures
        spec_find_def(defs, name) == -1,
    decreases defs,
{
    if defs.len() > 0 {
        let sub = defs.subrange(1, defs.len() as int);
        assert forall|j: int| 0 <= j < sub.len() implies (#[trigger] sub[j].name@) != name by {
            assert(sub[j] == defs[j + 1]);
        }
        lemma_spec_find_none(sub, name);
    }
}

/// The exact outcome of mapping one type expression: what descriptor it
/// compiles to, `UnknownTypeName` exactly when a named reference resolves to
/// nothing, and `CyclicReference` exactly when the chain of named references
/// outruns its budget.
pub open spec fn spec_compile_type(defs: Seq<Definition>, t: TypeExpr, depth: nat) -> Result<
    WireTypeM,
    MapError,
>
    decreases depth, ty_size(t), 0nat,
{
    match t {
        TypeExpr::Boolean => Ok(WireTypeM::Boolean),
        TypeExpr::UInt8 => Ok(WireTypeM::UInt8),
        TypeExpr::Int8 => Ok(WireTypeM::Int8),
        TypeExpr::UInt16 => Ok(WireTypeM::UInt16),
        TypeExpr::Int16 => Ok(WireTypeM::Int16),
        TypeExpr::UInt32 => Ok(WireTypeM::UInt32),
        TypeExpr::Int32 => Ok(WireTypeM::Int32),
        TypeExpr::UInt64 => Ok(WireTypeM::UInt64),
        TypeExpr::Int64 => Ok(WireTypeM::Int64),
        TypeExpr::Float32 => Ok(WireTypeM::Float32),
        TypeExpr::Float64 => Ok(WireTypeM::Float64),
        TypeExpr::Text => Ok(WireTypeM::Text),
        TypeExpr::GuidType => Ok(WireTypeM::GuidType),
        TypeExpr::DateType => Ok(WireTypeM::DateType),
        TypeExpr::Array(e) => match spec_compile_type(defs, *e, depth) {
            Err(e2) => Err(e2),
            Ok(w) => Ok(WireTypeM::List(Box::new(w))),
        },
        TypeExpr::Mapping(k, v) => match spec_compile_type(defs, *k, depth) {
            Err(e2) => Err(e2),
            Ok(wk) => match spec_compile_type(defs, *v, depth) {
                Err(e2) => Err(e2),
                Ok(wv) => Ok(WireTypeM::Assoc(Box::new(wk), Box::new(wv))),
            },
        },
        TypeExpr::Named(n) => if depth == 0 {
            Err(MapError::CyclicReference)
        } else {
            let k = spec_find_def(defs, n@);
            if k < 0 {
                Err(MapError::UnknownTypeName)
            } else {
                spec_compile_kind(defs, defs[k].kind, (depth - 1) as nat)
            }
        },
    }
}

/// The exact outcome of mapping one definition body.
pub open spec fn spec_compile_kind(defs: Seq<Definition>, k: DefKind, depth: nat) -> Result<
    WireTypeM,
    MapError,
>
    decreases depth, kind_size(k), 0nat,
{
    match k {
        DefKind::Enum(ms) => Ok(
            WireTypeM::Discrim(Seq::new(ms@.len(), |i: int| ms@[i].value)),
        ),
        DefKind::Struct(fs) => match spec_compile_sfields(defs, fs@, depth) {
            Err(e2) => Err(e2),
            Ok(ws) => Ok(WireTypeM::Record(ws)),
        },
        DefKind::Message(fs) => match spec_compile_mfields(defs, fs@, depth) {
            Err(e2) => Err(e2),
            Ok(ws) => Ok(WireTypeM::Message(ws)),
        },
        DefKind::Union(vs) => match spec_compile_variants(defs, vs@, depth) {
            Err(e2) => Err(e2),
            Ok(ws) => Ok(WireTypeM::Choice(ws)),
        },
    }
}

/// The mapped types of struct fields, in declared order.
pub open spec fn spec_compile_sfields(
    defs: Seq<Definition>,
    fs: Seq<StructField>,
    depth: nat,
) -> Result<Seq<WireTypeM>, MapError>
    decreases depth, struct_fields_size(fs), 0nat,
{
    if fs.len() == 0 {
        Ok(Seq::empty())
    } else {
        match spec_compile_type(defs, fs[0].ty, depth) {
            Err(e2) => Err(e2),
            Ok(w) => match spec_compile_sfields(defs, fs.subrange(1, fs.len() as int), depth) {
                Err(e2) => Err(e2),
                Ok(ws) => Ok(seq![w] + ws),
            },
        }
    }
}

/// The mapped (tag, type) pairs of message fields, in declared order.
pub open spec fn spec_compile_mfields(
    defs: Seq<Definition>,
    fs: Seq<MessageField>,
    depth: nat,
) -> Result<Seq<(u8, WireTypeM)>, MapError>
    decreases depth, message_fields_size(fs), 0nat,
{
    if fs.len() == 0 {
        Ok(Seq::empty())
    } else {
        match spec_compile_type(defs, fs[0].ty, depth) {
            Err(e2) => Err(e2),
            Ok(w) => match spec_compile_mfields(defs, fs.subrange(1, fs.len() as int), depth) {
                Err(e2) => Err(e2),
                Ok(ws) => Ok(seq![(fs[0].index, w)] + ws),
            },
        }
    }
}

/// The mapped (tag, payload type) pairs of union variants, in declared
/// order.
pub open spec fn spec_compile_variants(
    defs: Seq<Definition>,
    vs: Seq<UnionVariant>,
    depth: nat,
) -> Result<Seq<(u8, WireTypeM)>, MapError>
    decreases depth, variants_size(vs), 0nat,
{
    if vs.len() == 0 {
        Ok(Seq::empty())
    } else {
        match spec_compile_kind(defs, vs[0].def.kind, depth) {
            Err(e2) => Err(e2),
            Ok(w) => match spec_compile_variants(defs, vs.subrange(1, vs.len() as int), depth) {
                Err(e2) => Err(e2),
                Ok(ws) => Ok(seq![(vs[0].index, w)] + ws),
            },
        }
    }
}

/// The position of the first definition named `name`, if any.
fn find_def(defs: &Vec<Definition>, name: &str) -> (r: Option<usize>)
    ensures
        match r {
            Some(k) => 0 <= k < defs@.len() && k as int == spec_find_def(defs@, name@),
            None => spec_find_def(defs@, name@) == -1,
        },
{
    let mut i: usize = 0;
    while i < defs.len()
        invariant
            0 <= i <= defs@.len(),
            forall|j: int| 0 <= j < i ==> (#[trigger] defs@[j].name@) != name@,
        decreases defs@.len() - i,
    {
        if str_eq(defs[i].name.as_str(), name) {
            proof {
                lemma_spec_find_at(defs@, name@, i as int);
            }
            return Some(i);
        }
        i = i + 1;
    }
    proof {
        lemma_spec_find_none(defs@, name@);
    }
    None
}

/// Resolves one type expression into a descriptor. `depth` bounds the chain
/// of named references still allowed: any chain longer than the number of
/// definitions must repeat a name, so running out means the references are
/// cyclic — a schema no finite value could inhabit.
pub fn compile_type(defs: &Vec<Definition>, t: &TypeExpr, depth: usize) -> (r: Result<
    WireType,
    MapError,
>)
    requires
        forall|k: int| 0 <= k < defs@.len() ==> wf_definition(#[trigger] defs@[k]),
    ensures
        r matches Ok(w) ==> wf_wire(w),
        match spec_compile_type(defs@, *t, depth as nat) {
            Ok(wm) => r matches Ok(w) && wt_view(w) == wm,
            Err(e2) => r matches Err(a) && a == e2,
        },
    decreases depth, ty_size(*t),
{
    match t {
        TypeExpr::Boolean => Ok(WireType::Boolean),
        TypeExpr::UInt8 => Ok(WireType::UInt8),
        TypeExpr::Int8 => Ok(WireType::Int8),
        TypeExpr::UInt16 => Ok(WireType::UInt16),
        TypeExpr::Int16 => Ok(WireType::Int16),
        TypeExpr::UInt32 => Ok(WireType::UInt32),
        TypeExpr::Int32 => Ok(WireType::Int32),
        TypeExpr::UInt64 => Ok(WireType::UInt64),
        TypeExpr::Int64 => Ok(WireType::Int64),
        TypeExpr::Float32 => Ok(WireType::Float32),
        TypeExpr::Float64 => Ok(WireType::Float64),
        TypeExpr::Text => Ok(WireType::Text),
        TypeExpr::GuidType => Ok(WireType::GuidType),
        TypeExpr::DateType => Ok(WireType::DateType),
        TypeExpr::Array(e) => {
            let w = compile_type(defs, e, depth)?;
            Ok(WireType::List(Box::new(w)))
        },
        TypeExpr::Mapping(k, v) => {
            let wk = compile_type(defs, k, depth)?;
            let wv = compile_type(defs, v, depth)?;
            Ok(WireType::Assoc(Box::new(wk), Box::new(wv)))
        },
        TypeExpr::Named(n) => {
            if depth == 0 {
                return Err(MapError::CyclicReference);
            }
            match find_def(defs, n.as_str()) {
                None => Err(MapError::UnknownTypeName),
                Some(k) => compile_kind(defs, &defs[k].kind, depth - 1),
            }
        },
    }
}

/// Resolves one definition body into a descriptor.
pub fn compile_kind(defs: &Vec<Definition>, kind: &DefKind, depth: usize) -> (r: Result<
    WireType,
    MapError,
>)
    requires
        forall|k: int| 0 <= k < defs@.len() ==> wf_definition(#[trigger] defs@[k]),
        wf_kind(*kind),
    ensures
        r matches Ok(w) ==> wf_wire(w),
        match spec_compile_kind(defs@, *kind, depth as nat) {
            Ok(wm) => r matches Ok(w) && wt_view(w) == wm,
            Err(e2) => r matches Err(a) && a == e2,
        },
    decreases depth, kind_size(*kind),
{
    match kind {
        DefKind::Enum(ms) => {
            let mut vals: Vec<u32> = Vec::new();
            let mut i: usize = 0;
            while i < ms.len()
                invariant
                    0 <= i <= ms@.len(),
                    vals@.len() == i,
                    wf_kind(*kind),
                    kind matches DefKind::Enum(m2) && m2@ == ms@,
                    forall|k: int| 0 <= k < i ==> vals@[k] == ms@[k].value,
                decreases ms@.len() - i,
            {
                vals.push(ms[i].value);
                i = i + 1;
            }
            proof {
                assert forall|a: int, b: int| 0 <= a < b < vals@.len() implies vals@[a]
                    != vals@[b] by {
                    assert(vals@[a] == ms@[a].value);
                    assert(vals@[b] == ms@[b].value);
                }
                assert(vals@ =~= Seq::new(ms@.len(), |k: int| ms@[k].value));
            }
            Ok(WireType::Discrim(vals))
        },
        DefKind::Struct(fs) => {
            let mut ts: Vec<WireType> = Vec::new();
            let mut i: usize = 0;
            proof {
                assert(fs@.subrange(0, fs@.len() as int) =~= fs@);
                assert(wt_view_seq(ts@) =~= Seq::<WireTypeM>::empty());
                let r0 = spec_compile_sfields(defs@, fs@, depth as nat);
                if r0 is Ok {
                    assert(Seq::<WireTypeM>::empty() + r0->Ok_0 =~= r0->Ok_0);
                }
            }
            while i < fs.len()
                invariant
                    0 <= i <= fs@.len(),
                    ts@.len() == i,
                    forall|k: int| 0 <= k < defs@.len() ==> wf_definition(#[trigger] defs@[k]),
                    kind matches DefKind::Struct(f2) && f2@ == fs@,
                    wf_wire_list(ts@),
                    spec_compile_sfields(defs@, fs@, depth as nat) == (match spec_compile_sfields(
                        defs@,
                        fs@.subrange(i as int, fs@.len() as int),
                        depth as nat,
                    ) {
                        Err(e2) => Err::<Seq<WireTypeM>, MapError>(e2),
                        Ok(ws) => Ok::<Seq<WireTypeM>, MapError>(wt_view_seq(ts@) + ws),
                    }),
                decreases fs@.len() - i,
            {
                let ghost rest = fs@.subrange(i as int, fs@.len() as int);
                proof {
                    lemma_struct_field_size(fs@, i as int);
                    assert(rest[0] == fs@[i as int]);
                    assert(rest.subrange(1, rest.len() as int) =~= fs@.subrange(
                        i + 1,
                        fs@.len() as int,
                    ));
                }
                let ghost dv0 = wt_view_seq(ts@);
                let w = compile_type(defs, &fs[i].ty, depth)?;
                proof {
                    lemma_wf_wire_list_push(ts@, w);
                }
                let ghost prev = ts@;
                ts.push(w);
                proof {
                    assert(prev =~= ts@.drop_last());
                    lemma_wt_view_seq(ts@);
                    lemma_wt_view_seq(prev);
                    assert(wt_view_seq(ts@) =~= dv0 + seq![wt_view(w)]);
                    let rr = spec_compile_sfields(
                        defs@,
                        fs@.subrange(i + 1, fs@.len() as int),
                        depth as nat,
                    );
                    if rr is Ok {
                        assert(dv0 + (seq![wt_view(w)] + rr->Ok_0) =~= wt_view_seq(ts@)
                            + rr->Ok_0);
                    }
                }
                i = i + 1;
            }
            proof {
                assert(fs@.subrange(fs@.len() as int, fs@.len() as int) =~= Seq::<
                    StructField,
                >::empty());
                assert(wt_view_seq(ts@) + Seq::<WireTypeM>::empty() =~= wt_view_seq(ts@));
            }
            Ok(WireType::Record(ts))
        },
        DefKind::Message(fs) => {
            let mut out: Vec<(u8, WireType)> = Vec::new();
            let mut i: usize = 0;
            proof {
                assert(fs@.subrange(0, fs@.len() as int) =~= fs@);
                assert(wt_view_tagged(out@) =~= Seq::<(u8, WireTypeM)>::empty());
                let r0 = spec_compile_mfields(defs@, fs@, depth as nat);
                if r0 is Ok {
                    assert(Seq::<(u8, WireTypeM)>::empty() + r0->Ok_0 =~= r0->Ok_0);
                }
            }
            while i < fs.len()
                invariant
                    0 <= i <= fs@.len(),
                    forall|k: int| 0 <= k < defs@.len() ==> wf_definition(#[trigger] defs@[k]),
                    kind matches DefKind::Message(f2) && f2@ == fs@,
                    wf_kind(*kind),
                    out@.len() == i,
                    forall|k: int| 0 <= k < i ==> (#[trigger] out@[k].0) == fs@[k].index,
                    wf_wire_tagged(out@),
                    spec_compile_mfields(defs@, fs@, depth as nat) == (match spec_compile_mfields(
                        defs@,
                        fs@.subrange(i as int, fs@.len() as int),
                        depth as nat,
                    ) {
                        Err(e2) => Err::<Seq<(u8, WireTypeM)>, MapError>(e2),
                        Ok(ws) => Ok::<Seq<(u8, WireTypeM)>, MapError>(wt_view_tagged(out@) + ws),
                    }),
                decreases fs@.len() - i,
            {
                let ghost rest = fs@.subrange(i as int, fs@.len() as int);
                proof {
                    lemma_message_field_size(fs@, i as int);
                    assert(rest[0] == fs@[i as int]);
                    assert(rest.subrange(1, rest.len() as int) =~= fs@.subrange(
                        i + 1,
                        fs@.len() as int,
                    ));
                }
                let ghost dv0 = wt_view_tagged(out@);
                let w = compile_type(defs, &fs[i].ty, depth)?;
                proof {
                    lemma_wf_wire_tagged_push(out@, (fs@[i as int].index, w));
                }
                let idx = fs[i].index;
                let ghost prev = out@;
                out.push((idx, w));
                proof {
                    assert(prev =~= out@.drop_last());
                    lemma_wt_view_tagged(out@);
                    lemma_wt_view_tagged(prev);
                    assert(wt_view_tagged(out@) =~= dv0 + seq![(fs@[i as int].index, wt_view(w))]);
                    let rr = spec_compile_mfields(
                        defs@,
                        fs@.subrange(i + 1, fs@.len() as int),
                        depth as nat,
                    );
                    if rr is Ok {
                        assert(dv0 + (seq![(fs@[i as int].index, wt_view(w))] + rr->Ok_0)
                            =~= wt_view_tagged(out@) + rr->Ok_0);
                    }
                }
                i = i + 1;
            }
            proof {
                assert forall|a: int, b: int| 0 <= a < b < out@.len() implies out@[a].0
                    != out@[b].0 by {
                    assert(out@[a].0 == fs@[a].index);
                    assert(out@[b].0 == fs@[b].index);
                }
                assert forall|a: int| 0 <= a < out@.len() implies (#[trigger] out@[a].0) != 0 by {
                    assert(out@[a].0 == fs@[a].index);
                }
                assert(fs@.subrange(fs@.len() as int, fs@.len() as int) =~= Seq::<
                    MessageField,
                >::empty());
                assert(wt_view_tagged(out@) + Seq::<(u8, WireTypeM)>::empty() =~= wt_view_tagged(
                    out@,
                ));
            }
            Ok(WireType::Message(out))
        },
        DefKind::Union(vs) => {
            let mut out: Vec<(u8, WireType)> = Vec::new();
            let mut i: usize = 0;
            proof {
                assert(vs@.subrange(0, vs@.len() as int) =~= vs@);
                assert(wt_view_tagged(out@) =~= Seq::<(u8, WireTypeM)>::empty());
                let r0 = spec_compile_variants(defs@, vs@, depth as nat);
                if r0 is Ok {
                    assert(Seq::<(u8, WireTypeM)>::empty() + r0->Ok_0 =~= r0->Ok_0);
                }
            }
            while i < vs.len()
                invariant
                    0 <= i <= vs@.len(),
                    forall|k: int| 0 <= k < defs@.len() ==> wf_definition(#[trigger] defs@[k]),
                    kind matches DefKind::Union(v2) && v2@ == vs@,
                    wf_kind(*kind),
                    out@.len() == i,
                    forall|k: int| 0 <= k < i ==> (#[trigger] out@[k].0) == vs@[k].index,
                    wf_wire_tagged(out@),
                    spec_compile_variants(defs@, vs@, depth as nat) == (
                    match spec_compile_variants(
                        defs@,
                        vs@.subrange(i as int, vs@.len() as int),
                        depth as nat,
                    ) {
                        Err(e2) => Err::<Seq<(u8, WireTypeM)>, MapError>(e2),
                        Ok(ws) => Ok::<Seq<(u8, WireTypeM)>, MapError>(wt_view_tagged(out@) + ws),
                    }),
                decreases vs@.len() - i,
            {
                let ghost rest = vs@.subrange(i as int, vs@.len() as int);
                proof {
                    lemma_wf_variant_defs_index(vs@, i as int);
                    lemma_variant_size(vs@, i as int);
                    assert(rest[0] == vs@[i as int]);
                    assert(rest.subrange(1, rest.len() as int) =~= vs@.subrange(
                        i + 1,
                        vs@.len() as int,
                    ));
                }
                let ghost dv0 = wt_view_tagged(out@);
                let w = compile_kind(defs, &vs[i].def.kind, depth)?;
                proof {
                    lemma_wf_wire_tagged_push(out@, (vs@[i as int].index, w));
                }
                let idx = vs[i].index;
                let ghost prev = out@;
                out.push((idx, w));
                proof {
                    assert(prev =~= out@.drop_last());
                    lemma_wt_view_tagged(out@);
                    lemma_wt_view_tagged(prev);
                    assert(wt_view_tagged(out@) =~= dv0 + seq![(vs@[i as int].index, wt_view(w))]);
                    let rr = spec_compile_variants(
                        defs@,
                        vs@.subrange(i + 1, vs@.len() as int),
                        depth as nat,
                    );
                    if rr is Ok {
                        assert(dv0 + (seq![(vs@[i as int].index, wt_view(w))] + rr->Ok_0)
                            =~= wt_view_tagged(out@) + rr->Ok_0);
                    }
                }
                i = i + 1;
            }
            proof {
                assert forall|a: int, b: int| 0 <= a < b < out@.len() implies out@[a].0
                    != out@[b].0 by {
                    assert(out@[a].0 == vs@[a].index);
                    assert(out@[b].0 == vs@[b].index);
                }
                assert(vs@.subrange(vs@.len() as int, vs@.len() as int) =~= Seq::<
                    UnionVariant,
                >::empty());
                assert(wt_view_tagged(out@) + Seq::<(u8, WireTypeM)>::empty() =~= wt_view_tagged(
                    out@,
                ));
            }
            Ok(WireType::Choice(out))
        },
    }
}

/// Resolves one whole definition. The depth budget is the number of
/// definitions: a longer reference chain must repeat a name.
pub fn compile_definition(defs: &Vec<Definition>, d: &Definition) -> (r: Result<
    WireType,
    MapError,
>)
    requires
        forall|k: int| 0 <= k < defs@.len() ==> wf_definition(#[trigger] defs@[k]),
        wf_definition(*d),
    ensures
        r matches Ok(w) ==> wf_wire(w),
        match spec_compile_kind(defs@, d.kind, defs@.len() as nat) {
            Ok(wm) => r matches Ok(w) && wt_view(w) == wm,
            Err(e2) => r matches Err(a) && a == e2,
        },
{
    compile_kind(defs, &d.kind, defs.len())
}

} // verus!
