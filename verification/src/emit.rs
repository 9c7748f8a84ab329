//! The Rust source that the generator writes is built with the crate
//! `codegen`: a scope of items (raw text, structs with fields, enums with
//! variants) and imports, rendered to text at the end. This module declares
//! the `codegen` types that the generator uses, models their contents, and
//! wraps the methods it calls.
use vstd::prelude::*;

verus! {

/// A field of a struct, as `codegen` holds it.
#[verifier::ext_equal]
pub struct FieldDef {
    pub name: Seq<char>,
    pub ty: Seq<char>,
    /// The lines of its doc comment.
    pub docs: Seq<Seq<char>>,
    /// The attribute lines written above it.
    pub annotations: Seq<Seq<char>>,
}

/// A struct, as `codegen` holds it.
#[verifier::ext_equal]
pub struct StructDef {
    pub name: Seq<char>,
    pub vis: Option<Seq<char>>,
    pub fields: Seq<FieldDef>,
}

/// An enum, as `codegen` holds it: each variant is the text written for it.
#[verifier::ext_equal]
pub struct EnumDef {
    pub name: Seq<char>,
    pub vis: Option<Seq<char>>,
    pub variants: Seq<Seq<char>>,
}

/// An item of a scope.
pub enum CodeItem {
    /// Text written as it stands, on a line of its own.
    Raw(Seq<char>),
    Struct(StructDef),
    Enum(EnumDef),
}

#[verifier::external_type_specification]
#[verifier::external_body]
pub struct ExScope(codegen::Scope);

#[verifier::external_type_specification]
#[verifier::external_body]
pub struct ExStruct(codegen::Struct);

#[verifier::external_type_specification]
#[verifier::external_body]
pub struct ExField(codegen::Field);

#[verifier::external_type_specification]
#[verifier::external_body]
pub struct ExEnum(codegen::Enum);

/// The items of a scope, in the order in which they were pushed.
pub uninterp spec fn scope_items(s: codegen::Scope) -> Seq<CodeItem>;

/// The imports of a scope, grouped by path: each path once, in the order of
/// its first import, with the type names imported from it, each once, in
/// the order of their first import.
pub uninterp spec fn scope_imports(s: codegen::Scope) -> Seq<(Seq<char>, Seq<Seq<char>>)>;

/// What a struct holds.
pub uninterp spec fn struct_def(s: codegen::Struct) -> StructDef;

/// What a field holds.
pub uninterp spec fn field_def(f: codegen::Field) -> FieldDef;

/// What an enum holds.
pub uninterp spec fn enum_def(e: codegen::Enum) -> EnumDef;

/// The text that `codegen` renders for a scope with these imports and
/// items.
pub uninterp spec fn rendered(imports: Seq<(Seq<char>, Seq<Seq<char>>)>, items: Seq<CodeItem>) -> Seq<char>;

/// The part of a type path before its first `::` (all of it where it has
/// none).
pub open spec fn type_head(s: Seq<char>) -> Seq<char>
    decreases s.len(),
{
    if s.len() == 0 || (s.len() >= 2 && s[0] == ':' && s[1] == ':') {
        Seq::<char>::empty()
    } else {
        seq![s[0]] + type_head(s.drop_first())
    }
}

/// The position of the first group of `imports` for `path`, or -1.
pub open spec fn group_index(imports: Seq<(Seq<char>, Seq<Seq<char>>)>, path: Seq<char>) -> int
    decreases imports.len(),
{
    if imports.len() == 0 {
        -1
    } else if imports.last().0 == path && group_index(imports.drop_last(), path) < 0 {
        imports.len() - 1
    } else {
        group_index(imports.drop_last(), path)
    }
}

pub proof fn lemma_group_index(imports: Seq<(Seq<char>, Seq<Seq<char>>)>, path: Seq<char>)
    ensures
        -1 <= group_index(imports, path) < imports.len(),
        group_index(imports, path) >= 0 ==> imports[group_index(imports, path)].0 == path,
        forall|j: int| 0 <= j < imports.len() && j < group_index(imports, path) ==> #[trigger] imports[j].0 != path,
        group_index(imports, path) < 0 ==> forall|j: int| 0 <= j < imports.len() ==> #[trigger] imports[j].0 != path,
    decreases imports.len(),
{
    if imports.len() > 0 {
        let prev = imports.drop_last();
        lemma_group_index(prev, path);
        assert forall|j: int| 0 <= j < prev.len() implies #[trigger] imports[j] == prev[j] by {}
    }
}

/// The imports after importing `ty` from `path`: the head of `ty` joins the
/// group of `path`, unless it is there already; a path not imported before
/// gets a group of its own, last.
pub open spec fn import_added(
    imports: Seq<(Seq<char>, Seq<Seq<char>>)>,
    path: Seq<char>,
    ty: Seq<char>,
) -> Seq<(Seq<char>, Seq<Seq<char>>)> {
    let h = type_head(ty);
    let j = group_index(imports, path);
    if j < 0 {
        imports.push((path, seq![h]))
    } else if imports[j].1.contains(h) {
        imports
    } else {
        imports.update(j, (path, imports[j].1.push(h)))
    }
}

/// `codegen::Scope::new`: a scope with no imports and no items.
#[verifier::external_body]
pub(crate) fn scope_new() -> (s: codegen::Scope)
    ensures
        scope_items(s) == Seq::<CodeItem>::empty(),
        scope_imports(s) == Seq::<(Seq<char>, Seq<Seq<char>>)>::empty(),
{
    codegen::Scope::new()
}

/// `codegen::Scope::import`: adds the head of `ty` (its part before the
/// first `::`) to the types imported from `path`, unless it is there
/// already; the items stay.
#[verifier::external_body]
pub(crate) fn scope_import(scope: &mut codegen::Scope, path: &str, ty: &str)
    ensures
        scope_items(*final(scope)) == scope_items(*old(scope)),
        scope_imports(*final(scope)) == import_added(scope_imports(*old(scope)), path@, ty@),
{
    scope.import(path, ty);
}

/// `codegen::Scope::raw`: pushes `val` as a raw item.
#[verifier::external_body]
pub(crate) fn scope_raw(scope: &mut codegen::Scope, val: &str)
    ensures
        scope_items(*final(scope)) == scope_items(*old(scope)).push(CodeItem::Raw(val@)),
        scope_imports(*final(scope)) == scope_imports(*old(scope)),
{
    scope.raw(val);
}

/// `codegen::Scope::push_struct`: pushes the struct as an item.
#[verifier::external_body]
pub(crate) fn scope_push_struct(scope: &mut codegen::Scope, item: codegen::Struct)
    ensures
        scope_items(*final(scope)) == scope_items(*old(scope)).push(CodeItem::Struct(struct_def(item))),
        scope_imports(*final(scope)) == scope_imports(*old(scope)),
{
    scope.push_struct(item);
}

/// `codegen::Scope::push_enum`: pushes the enum as an item.
#[verifier::external_body]
pub(crate) fn scope_push_enum(scope: &mut codegen::Scope, item: codegen::Enum)
    ensures
        scope_items(*final(scope)) == scope_items(*old(scope)).push(CodeItem::Enum(enum_def(item))),
        scope_imports(*final(scope)) == scope_imports(*old(scope)),
{
    scope.push_enum(item);
}

/// `n` stands in `h`, as a run of consecutive characters.
pub open spec fn contains_text(h: Seq<char>, n: Seq<char>) -> bool {
    exists|i: int| 0 <= i && i + n.len() <= h.len() && #[trigger] h.subrange(i, i + n.len()) == n
}

/// `s` holds no line break.
pub open spec fn one_line(s: Seq<char>) -> bool {
    !s.contains('\n') && !s.contains('\r')
}

/// Some field of some struct among `items` carries the annotation `a`.
pub open spec fn annotated(items: Seq<CodeItem>, a: Seq<char>) -> bool {
    exists|i: int, j: int|
        0 <= i < items.len() && items[i] is Struct && 0 <= j < items[i]->Struct_0.fields.len()
            && (#[trigger] items[i]->Struct_0.fields[j]).annotations.contains(a)
}

/// `codegen::Scope::to_string`: the rendered scope. Its result depends on
/// the imports and items alone. Of the rendering, this says only that a raw
/// item and a field's annotation, where they hold no line break, stand in it
/// as they are (each a line of its own, after the indentation); the rest is
/// left unsaid.
#[verifier::external_body]
pub(crate) fn scope_to_string(scope: &codegen::Scope) -> (r: String)
    ensures
        r@ == rendered(scope_imports(*scope), scope_items(*scope)),
        forall|t: Seq<char>|
            #[trigger] scope_items(*scope).contains(CodeItem::Raw(t)) && one_line(t) ==> contains_text(r@, t),
        forall|a: Seq<char>|
            #[trigger] annotated(scope_items(*scope), a) && one_line(a) ==> contains_text(r@, a),
{
    scope.to_string()
}

/// `codegen::Struct::new`: a struct of that name, without visibility or
/// fields.
#[verifier::external_body]
pub(crate) fn struct_new(name: &str) -> (s: codegen::Struct)
    ensures
        struct_def(s) == (StructDef { name: name@, vis: None, fields: Seq::empty() }),
{
    codegen::Struct::new(name)
}

/// `codegen::Struct::vis`: sets the visibility.
#[verifier::external_body]
pub(crate) fn struct_vis(s: &mut codegen::Struct, vis: &str)
    ensures
        struct_def(*final(s)) == (StructDef { vis: Some(vis@), ..struct_def(*old(s)) }),
{
    s.vis(vis);
}

/// `codegen::Struct::push_field`: appends a named field. (It panics on a
/// struct that has tuple fields; the structs here are made by `struct_new`
/// and get named fields only, which the model does not record.)
#[verifier::external_body]
pub(crate) fn struct_push_field(s: &mut codegen::Struct, field: codegen::Field)
    ensures
        struct_def(*final(s)) == (StructDef {
            fields: struct_def(*old(s)).fields.push(field_def(field)),
            ..struct_def(*old(s))
        }),
{
    s.push_field(field);
}

/// `codegen::Field::new`: a field of that name and type, without docs or
/// annotations.
#[verifier::external_body]
pub(crate) fn field_new(name: &str, ty: &str) -> (f: codegen::Field)
    ensures
        field_def(f) == (FieldDef {
            name: name@,
            ty: ty@,
            docs: Seq::empty(),
            annotations: Seq::empty(),
        }),
{
    codegen::Field::new(name, ty)
}

/// `codegen::Field::doc`: replaces the doc lines.
#[verifier::external_body]
pub(crate) fn field_doc(f: &mut codegen::Field, docs: &Vec<String>)
    ensures
        field_def(*final(f)) == (FieldDef {
            docs: docs@.map_values(|d: String| d@),
            ..field_def(*old(f))
        }),
{
    f.doc(docs.iter().map(|d| d.as_str()).collect());
}

/// `codegen::Field::annotation`: replaces the annotation lines.
#[verifier::external_body]
pub(crate) fn field_annotation(f: &mut codegen::Field, annotations: &Vec<String>)
    ensures
        field_def(*final(f)) == (FieldDef {
            annotations: annotations@.map_values(|a: String| a@),
            ..field_def(*old(f))
        }),
{
    f.annotation(annotations.iter().map(|a| a.as_str()).collect());
}

/// `codegen::Enum::new`: an enum of that name, without visibility or
/// variants.
#[verifier::external_body]
pub(crate) fn enum_new(name: &str) -> (e: codegen::Enum)
    ensures
        enum_def(e) == (EnumDef { name: name@, vis: None, variants: Seq::empty() }),
{
    codegen::Enum::new(name)
}

/// `codegen::Enum::vis`: sets the visibility.
#[verifier::external_body]
pub(crate) fn enum_vis(e: &mut codegen::Enum, vis: &str)
    ensures
        enum_def(*final(e)) == (EnumDef { vis: Some(vis@), ..enum_def(*old(e)) }),
{
    e.vis(vis);
}

/// `codegen::Enum::new_variant`: appends a variant written as `name`.
#[verifier::external_body]
pub(crate) fn enum_new_variant(e: &mut codegen::Enum, name: &str)
    ensures
        enum_def(*final(e)) == (EnumDef {
            variants: enum_def(*old(e)).variants.push(name@),
            ..enum_def(*old(e))
        }),
{
    e.new_variant(name);
}

} // verus!
