use vstd::prelude::*;

verus! {

/// A schema type expression: a primitive, a built-in value type, a container,
/// or a named reference to another definition.
#[derive(Debug)]
pub enum TypeExpr {
    Boolean,
    UInt8,
    Int8,
    UInt16,
    Int16,
    UInt32,
    Int32,
    UInt64,
    Int64,
    Float32,
    Float64,
    Text,
    GuidType,
    DateType,
    /// `array[T]` or `T[]`.
    Array(Box<TypeExpr>),
    /// `map[K, V]`.
    Mapping(Box<TypeExpr>, Box<TypeExpr>),
    /// A reference to a definition by name; forward references are legal.
    Named(String),
}

/// A `[deprecated]` attribute, with its optional note.
#[derive(Debug)]
pub struct Deprecation {
    pub note: Option<String>,
}

/// One member of an enum definition: a name and its explicit 32-bit
/// discriminant.
#[derive(Debug)]
pub struct EnumMember {
    pub name: String,
    pub value: u32,
    pub deprecated: Option<Deprecation>,
}

/// One field of a struct definition; declaration order is wire order.
#[derive(Debug)]
pub struct StructField {
    pub ty: TypeExpr,
    pub name: String,
}

/// One field of a message definition, carrying its 8-bit wire tag.
#[derive(Debug)]
pub struct MessageField {
    pub index: u8,
    pub ty: TypeExpr,
    pub name: String,
    pub deprecated: Option<Deprecation>,
}

/// One variant of a union definition: an 8-bit tag and an inline definition
/// that is the variant's payload type.
#[derive(Debug)]
pub struct UnionVariant {
    pub index: u8,
    pub def: Definition,
}

/// The body of a definition.
#[derive(Debug)]
pub enum DefKind {
    Enum(Vec<EnumMember>),
    Struct(Vec<StructField>),
    Message(Vec<MessageField>),
    Union(Vec<UnionVariant>),
}

/// One schema definition: a name, optional opcode metadata, and a body.
#[derive(Debug)]
pub struct Definition {
    pub name: String,
    pub opcode: Option<u32>,
    pub readonly: bool,
    pub kind: DefKind,
}

/// One top-level item of a schema file: an import directive or a definition.
#[derive(Debug)]
pub enum SchemaItem {
    ImportItem(String),
    DefItem(Definition),
}

/// Enum members carry pairwise distinct discriminants.
pub open spec fn wf_enum_members(ms: Seq<EnumMember>) -> bool {
    forall|i: int, j: int| 0 <= i < j < ms.len() ==> ms[i].value != ms[j].value
}

/// Message fields carry pairwise distinct tags, and no tag is 0, which the
/// wire format reserves for the terminator.
pub open spec fn wf_message_fields(fs: Seq<MessageField>) -> bool {
    &&& forall|i: int| 0 <= i < fs.len() ==> (#[trigger] fs[i].index) != 0
    &&& forall|i: int, j: int| 0 <= i < j < fs.len() ==> fs[i].index != fs[j].index
}

/// Union variants carry pairwise distinct tags; tag 0 is legal here, since
/// union framing has no terminator.
pub open spec fn wf_union_tags(vs: Seq<UnionVariant>) -> bool {
    forall|i: int, j: int| 0 <= i < j < vs.len() ==> vs[i].index != vs[j].index
}

/// Every inline definition of the given union variants is well formed.
pub open spec fn wf_variant_defs(vs: Seq<UnionVariant>) -> bool
    decreases vs,
{
    vs.len() == 0 || (wf_definition(vs[0].def) && wf_variant_defs(vs.drop_first()))
}

/// Appending a variant with a well-formed payload keeps all payloads well
/// formed.
pub proof fn lemma_wf_variant_defs_push(vs: Seq<UnionVariant>, v: UnionVariant)
    requires
        wf_variant_defs(vs),
        wf_definition(v.def),
    ensures
        wf_variant_defs(vs.push(v)),
    decreases vs.len(),
{
    if vs.len() == 0 {
        assert(vs.push(v) =~= seq![v]);
        assert((seq![v]).drop_first() =~= Seq::<UnionVariant>::empty());
        assert(wf_variant_defs(Seq::<UnionVariant>::empty()));
        assert((seq![v])[0] == v);
    } else {
        assert(vs.push(v).drop_first() =~= vs.drop_first().push(v));
        lemma_wf_variant_defs_push(vs.drop_first(), v);
        assert(vs.push(v)[0] == vs[0]);
    }
}

/// A well-formed definition: an enum carries no opcode and no duplicate
/// discriminant, a message no duplicate and no zero tag, a union no duplicate
/// tag and only well-formed payload definitions.
pub open spec fn wf_definition(d: Definition) -> bool
    decreases d,
{
    (d.kind is Enum ==> d.opcode is None) && wf_kind(d.kind)
}

/// The body rules alone: enum discriminants unique, message tags unique and
/// nonzero, union tags unique and union payload definitions well formed.
pub open spec fn wf_kind(k: DefKind) -> bool
    decreases k,
{
    match k {
        DefKind::Enum(ms) => wf_enum_members(ms@),
        DefKind::Struct(_) => true,
        DefKind::Message(fs) => wf_message_fields(fs@),
        DefKind::Union(vs) => wf_union_tags(vs@) && wf_variant_defs(vs@),
    }
}

/// Each variant's payload definition is well formed.
pub proof fn lemma_wf_variant_defs_index(vs: Seq<UnionVariant>, k: int)
    requires
        wf_variant_defs(vs),
        0 <= k < vs.len(),
    ensures
        wf_definition(vs[k].def),
    decreases vs,
{
    if k > 0 {
        lemma_wf_variant_defs_index(vs.drop_first(), k - 1);
    }
}

/// The syntactic size of a type expression; orders the mapper's recursion.
pub open spec fn ty_size(t: TypeExpr) -> nat
    decreases t,
{
    match t {
        TypeExpr::Array(e) => ty_size(*e) + 1,
        TypeExpr::Mapping(k, v) => ty_size(*k) + ty_size(*v) + 1,
        _ => 1,
    }
}

/// The combined size of struct field types.
pub open spec fn struct_fields_size(fs: Seq<StructField>) -> nat
    decreases fs,
{
    if fs.len() == 0 {
        1
    } else {
        ty_size(fs[0].ty) + struct_fields_size(fs.subrange(1, fs.len() as int)) + 1
    }
}

/// The combined size of message field types.
pub open spec fn message_fields_size(fs: Seq<MessageField>) -> nat
    decreases fs,
{
    if fs.len() == 0 {
        1
    } else {
        ty_size(fs[0].ty) + message_fields_size(fs.subrange(1, fs.len() as int)) + 1
    }
}

/// The syntactic size of a definition body.
pub open spec fn kind_size(k: DefKind) -> nat
    decreases k,
{
    match k {
        DefKind::Enum(_) => 1,
        DefKind::Struct(fs) => struct_fields_size(fs@) + 1,
        DefKind::Message(fs) => message_fields_size(fs@) + 1,
        DefKind::Union(vs) => variants_size(vs@) + 1,
    }
}

/// The combined size of union variant bodies.
pub open spec fn variants_size(vs: Seq<UnionVariant>) -> nat
    decreases vs,
{
    if vs.len() == 0 {
        1
    } else {
        kind_size(vs[0].def.kind) + variants_size(vs.subrange(1, vs.len() as int)) + 1
    }
}

/// Each struct field's type is smaller than the whole field list.
pub proof fn lemma_struct_field_size(fs: Seq<StructField>, i: int)
    requires
        0 <= i < fs.len(),
    ensures
        ty_size(fs[i].ty) < struct_fields_size(fs),
    decreases fs,
{
    if i > 0 {
        lemma_struct_field_size(fs.subrange(1, fs.len() as int), i - 1);
    }
}

/// Each message field's type is smaller than the whole field list.
pub proof fn lemma_message_field_size(fs: Seq<MessageField>, i: int)
    requires
        0 <= i < fs.len(),
    ensures
        ty_size(fs[i].ty) < message_fields_size(fs),
    decreases fs,
{
    if i > 0 {
        lemma_message_field_size(fs.subrange(1, fs.len() as int), i - 1);
    }
}

/// Each variant's body is smaller than the whole variant list.
pub proof fn lemma_variant_size(vs: Seq<UnionVariant>, i: int)
    requires
        0 <= i < vs.len(),
    ensures
        kind_size(vs[i].def.kind) < variants_size(vs),
    decreases vs,
{
    if i > 0 {
        lemma_variant_size(vs.subrange(1, vs.len() as int), i - 1);
    }
}


/// The mathematical model of a type expression: the same shape with the
/// referenced name as a character sequence.
pub enum TypeExprM {
    Boolean,
    UInt8,
    Int8,
    UInt16,
    Int16,
    UInt32,
    Int32,
    UInt64,
    Int64,
    Float32,
    Float64,
    Text,
    GuidType,
    DateType,
    Array(Box<TypeExprM>),
    Mapping(Box<TypeExprM>, Box<TypeExprM>),
    Named(Seq<char>),
}

/// The model of a type expression.
pub open spec fn ty_view(t: TypeExpr) -> TypeExprM
    decreases t,
{
    match t {
        TypeExpr::Boolean => TypeExprM::Boolean,
        TypeExpr::UInt8 => TypeExprM::UInt8,
        TypeExpr::Int8 => TypeExprM::Int8,
        TypeExpr::UInt16 => TypeExprM::UInt16,
        TypeExpr::Int16 => TypeExprM::Int16,
        TypeExpr::UInt32 => TypeExprM::UInt32,
        TypeExpr::Int32 => TypeExprM::Int32,
        TypeExpr::UInt64 => TypeExprM::UInt64,
        TypeExpr::Int64 => TypeExprM::Int64,
        TypeExpr::Float32 => TypeExprM::Float32,
        TypeExpr::Float64 => TypeExprM::Float64,
        TypeExpr::Text => TypeExprM::Text,
        TypeExpr::GuidType => TypeExprM::GuidType,
        TypeExpr::DateType => TypeExprM::DateType,
        TypeExpr::Array(e) => TypeExprM::Array(Box::new(ty_view(*e))),
        TypeExpr::Mapping(k, v) => TypeExprM::Mapping(Box::new(ty_view(*k)), Box::new(ty_view(*v))),
        TypeExpr::Named(n) => TypeExprM::Named(n@),
    }
}

/// The model of a deprecation attribute: the note's characters, if any.
pub open spec fn dep_view(d: Option<Deprecation>) -> Option<Option<Seq<char>>> {
    match d {
        None => None,
        Some(a) => Some(
            match a.note {
                None => None,
                Some(n) => Some(n@),
            },
        ),
    }
}

/// The model of an enum member.
pub struct EnumMemberM {
    pub name: Seq<char>,
    pub value: u32,
    pub deprecated: Option<Option<Seq<char>>>,
}

/// The model of a struct field.
pub struct StructFieldM {
    pub ty: TypeExprM,
    pub name: Seq<char>,
}

/// The model of a message field.
pub struct MessageFieldM {
    pub index: u8,
    pub ty: TypeExprM,
    pub name: Seq<char>,
    pub deprecated: Option<Option<Seq<char>>>,
}

/// The model of a union variant.
pub struct UnionVariantM {
    pub index: u8,
    pub def: DefinitionM,
}

/// The model of a definition body.
pub enum DefKindM {
    Enum(Seq<EnumMemberM>),
    Struct(Seq<StructFieldM>),
    Message(Seq<MessageFieldM>),
    Union(Seq<UnionVariantM>),
}

/// The model of a definition.
pub struct DefinitionM {
    pub name: Seq<char>,
    pub opcode: Option<u32>,
    pub readonly: bool,
    pub kind: DefKindM,
}

/// The model of a schema item.
pub enum SchemaItemM {
    ImportItem(Seq<char>),
    DefItem(DefinitionM),
}

/// The model of one enum member.
pub open spec fn em_view(m: EnumMember) -> EnumMemberM {
    EnumMemberM { name: m.name@, value: m.value, deprecated: dep_view(m.deprecated) }
}

/// The models of enum members, in order.
pub open spec fn ems_view(ms: Seq<EnumMember>) -> Seq<EnumMemberM>
    decreases ms,
{
    if ms.len() == 0 {
        Seq::empty()
    } else {
        seq![em_view(ms[0])] + ems_view(ms.subrange(1, ms.len() as int))
    }
}

/// The model of one struct field.
pub open spec fn sf_view(f: StructField) -> StructFieldM {
    StructFieldM { ty: ty_view(f.ty), name: f.name@ }
}

/// The models of struct fields, in order.
pub open spec fn sfs_view(fs: Seq<StructField>) -> Seq<StructFieldM>
    decreases fs,
{
    if fs.len() == 0 {
        Seq::empty()
    } else {
        seq![sf_view(fs[0])] + sfs_view(fs.subrange(1, fs.len() as int))
    }
}

/// The model of one message field.
pub open spec fn mf_view(f: MessageField) -> MessageFieldM {
    MessageFieldM {
        index: f.index,
        ty: ty_view(f.ty),
        name: f.name@,
        deprecated: dep_view(f.deprecated),
    }
}

/// The models of message fields, in order.
pub open spec fn mfs_view(fs: Seq<MessageField>) -> Seq<MessageFieldM>
    decreases fs,
{
    if fs.len() == 0 {
        Seq::empty()
    } else {
        seq![mf_view(fs[0])] + mfs_view(fs.subrange(1, fs.len() as int))
    }
}

/// The model of a definition.
pub open spec fn def_view(d: Definition) -> DefinitionM
    decreases d,
{
    DefinitionM { name: d.name@, opcode: d.opcode, readonly: d.readonly, kind: kind_view(d.kind) }
}

/// The model of a definition body.
pub open spec fn kind_view(k: DefKind) -> DefKindM
    decreases k,
{
    match k {
        DefKind::Enum(ms) => DefKindM::Enum(ems_view(ms@)),
        DefKind::Struct(fs) => DefKindM::Struct(sfs_view(fs@)),
        DefKind::Message(fs) => DefKindM::Message(mfs_view(fs@)),
        DefKind::Union(vs) => DefKindM::Union(uvs_view(vs@)),
    }
}

/// The models of union variants, in order.
pub open spec fn uvs_view(vs: Seq<UnionVariant>) -> Seq<UnionVariantM>
    decreases vs,
{
    if vs.len() == 0 {
        Seq::empty()
    } else {
        seq![UnionVariantM { index: vs[0].index, def: def_view(vs[0].def) }] + uvs_view(
            vs.subrange(1, vs.len() as int),
        )
    }
}

/// The model of a schema item.
pub open spec fn item_view(it: SchemaItem) -> SchemaItemM {
    match it {
        SchemaItem::ImportItem(p) => SchemaItemM::ImportItem(p@),
        SchemaItem::DefItem(d) => SchemaItemM::DefItem(def_view(d)),
    }
}

/// The models of schema items, in order.
pub open spec fn items_view(its: Seq<SchemaItem>) -> Seq<SchemaItemM>
    decreases its,
{
    if its.len() == 0 {
        Seq::empty()
    } else {
        seq![item_view(its[0])] + items_view(its.subrange(1, its.len() as int))
    }
}

/// `ems_view` maps the model pointwise.
pub proof fn lemma_ems_view(ms: Seq<EnumMember>)
    ensures
        ems_view(ms).len() == ms.len(),
        forall|i: int| 0 <= i < ms.len() ==> #[trigger] ems_view(ms)[i] == em_view(ms[i]),
    decreases ms,
{
    if ms.len() > 0 {
        let sub = ms.subrange(1, ms.len() as int);
        lemma_ems_view(sub);
        assert forall|i: int|
            0 <= i < ms.len() implies #[trigger] ems_view(ms)[i] == em_view(ms[i]) by {
            if i > 0 {
                assert(sub[i - 1] == ms[i]);
                assert(ems_view(ms)[i] == ems_view(sub)[i - 1]);
            }
        }
    }
}

/// `sfs_view` maps the model pointwise.
pub proof fn lemma_sfs_view(fs: Seq<StructField>)
    ensures
        sfs_view(fs).len() == fs.len(),
        forall|i: int| 0 <= i < fs.len() ==> #[trigger] sfs_view(fs)[i] == sf_view(fs[i]),
    decreases fs,
{
    if fs.len() > 0 {
        let sub = fs.subrange(1, fs.len() as int);
        lemma_sfs_view(sub);
        assert forall|i: int|
            0 <= i < fs.len() implies #[trigger] sfs_view(fs)[i] == sf_view(fs[i]) by {
            if i > 0 {
                assert(sub[i - 1] == fs[i]);
                assert(sfs_view(fs)[i] == sfs_view(sub)[i - 1]);
            }
        }
    }
}

/// `mfs_view` maps the model pointwise.
pub proof fn lemma_mfs_view(fs: Seq<MessageField>)
    ensures
        mfs_view(fs).len() == fs.len(),
        forall|i: int| 0 <= i < fs.len() ==> #[trigger] mfs_view(fs)[i] == mf_view(fs[i]),
    decreases fs,
{
    if fs.len() > 0 {
        let sub = fs.subrange(1, fs.len() as int);
        lemma_mfs_view(sub);
        assert forall|i: int|
            0 <= i < fs.len() implies #[trigger] mfs_view(fs)[i] == mf_view(fs[i]) by {
            if i > 0 {
                assert(sub[i - 1] == fs[i]);
                assert(mfs_view(fs)[i] == mfs_view(sub)[i - 1]);
            }
        }
    }
}

/// `uvs_view` maps the model pointwise.
pub proof fn lemma_uvs_view(vs: Seq<UnionVariant>)
    ensures
        uvs_view(vs).len() == vs.len(),
        forall|i: int|
            0 <= i < vs.len() ==> #[trigger] uvs_view(vs)[i] == (UnionVariantM {
                index: vs[i].index,
                def: def_view(vs[i].def),
            }),
    decreases vs,
{
    if vs.len() > 0 {
        let sub = vs.subrange(1, vs.len() as int);
        lemma_uvs_view(sub);
        assert forall|i: int|
            0 <= i < vs.len() implies #[trigger] uvs_view(vs)[i] == (UnionVariantM {
            index: vs[i].index,
            def: def_view(vs[i].def),
        }) by {
            if i > 0 {
                assert(sub[i - 1] == vs[i]);
                assert(uvs_view(vs)[i] == uvs_view(sub)[i - 1]);
            }
        }
    }
}

/// `items_view` maps the model pointwise.
pub proof fn lemma_items_view(its: Seq<SchemaItem>)
    ensures
        items_view(its).len() == its.len(),
        forall|i: int| 0 <= i < its.len() ==> #[trigger] items_view(its)[i] == item_view(its[i]),
    decreases its,
{
    if its.len() > 0 {
        let sub = its.subrange(1, its.len() as int);
        lemma_items_view(sub);
        assert forall|i: int|
            0 <= i < its.len() implies #[trigger] items_view(its)[i] == item_view(its[i]) by {
            if i > 0 {
                assert(sub[i - 1] == its[i]);
                assert(items_view(its)[i] == items_view(sub)[i - 1]);
            }
        }
    }
}

} // verus!
