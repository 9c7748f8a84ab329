//! Writing Rust source for the schemas of a map: a struct for each object
//! (and each `allOf`, its members merged), an enum for each string enum and
//! each `oneOf`/`anyOf`, a type alias for everything else; each with its doc
//! comment, the derives asked for, and the annotations asked for before and
//! after the derive line.
use vstd::prelude::*;

use crate::emit::{
    enum_new, enum_new_variant, enum_vis, field_annotation, field_doc, field_new, group_index, import_added,
    lemma_group_index, rendered,
    scope_imports, scope_import, scope_items, scope_new, scope_push_enum, scope_push_struct, scope_raw,
    scope_to_string, struct_new, struct_push_field, struct_vis, type_head, CodeItem, EnumDef, FieldDef,
    StructDef, enum_def, field_def, struct_def, annotated, contains_text, one_line,
};
use crate::merge::{all_of_merged, contains_name, resolve_all_of};
use crate::model::{RefOr, SchemaObject, SchemaForm, StringType, TypeForm};
use crate::name_map::compare_names;
use crate::names::{into_safe, safe_identifier, snake_case, to_pascal_case, to_snek_case, upper_camel_case};
use crate::normalize::title_name;
use crate::parse::{last_piece, last_piece_of, SchemaMap};
use crate::text::{decimal, lines, names_of, push_decimal, push_str, split_lines, string_from, trim};
use crate::types::{
    gen_property_type_for_schema_kind, gen_type_name_for_type, get_property_type_from_schema_refor,
    kind_renders, kind_type_name, reference_type_name, rust_type, sanitize_name, sanitized, slot_nullable,
    slot_renders, slot_type_name, type_renders, check_kind_renders, check_slot_renders, check_type_renders,
};

verus! {

/// The options of a run, as plain values: the derives asked for, the
/// annotations to write before and after the derive line (each with the
/// names of the types that are not to have it), the field annotations by
/// schema type (annotation for a required field, annotation for an optional
/// one), and whether optional fields are skipped when serialized if absent.
pub struct GenOptions {
    pub derivatives: Seq<Seq<char>>,
    pub before: Seq<(Seq<char>, Option<Seq<Seq<char>>>)>,
    pub after: Seq<(Seq<char>, Option<Seq<Seq<char>>>)>,
    pub field_annotations: Seq<(Seq<char>, Seq<char>, Seq<char>)>,
    pub skip_none: bool,
}

/// The views of a sequence of strings.
pub open spec fn strs(v: Seq<&str>) -> Seq<Seq<char>> {
    v.map_values(|s: &str| s@)
}

/// The view of an optional string.
pub open spec fn opt_str(o: Option<&str>) -> Option<Seq<char>> {
    match o {
        Some(s) => Some(s@),
        None => None,
    }
}

/// The view of an optional owned string.
pub open spec fn opt_string(o: Option<String>) -> Option<Seq<char>> {
    match o {
        Some(s) => Some(s@),
        None => None,
    }
}

/// The view of an annotation list (none given: an empty list).
pub open spec fn annotations_view(a: Option<&[(&str, Option<&[&str]>)]>) -> Seq<(Seq<char>, Option<Seq<Seq<char>>>)> {
    match a {
        Some(x) => x@.map_values(
            |p: (&str, Option<&[&str]>)|
                (
                    p.0@,
                    match p.1 {
                        Some(e) => Some(strs(e@)),
                        None => None,
                    },
                ),
        ),
        None => Seq::empty(),
    }
}

/// The view of the field annotation mappings (none given: an empty list).
pub open spec fn mappings_view(a: Option<&[(&str, &str, &str)]>) -> Seq<(Seq<char>, Seq<char>, Seq<char>)> {
    match a {
        Some(x) => x@.map_values(|t: (&str, &str, &str)| (t.0@, t.1@, t.2@)),
        None => Seq::empty(),
    }
}

/// The view of the imports (none given: an empty list).
pub open spec fn imports_view(a: Option<&[(&str, &str)]>) -> Seq<(Seq<char>, Seq<char>)> {
    match a {
        Some(x) => x@.map_values(|t: (&str, &str)| (t.0@, t.1@)),
        None => Seq::empty(),
    }
}

/// The options, as plain values.
pub open spec fn gen_options(
    derivatives: Option<&[&str]>,
    annotations_before: Option<&[(&str, Option<&[&str]>)]>,
    annotations_after: Option<&[(&str, Option<&[&str]>)]>,
    field_annotations: Option<&[(&str, &str, &str)]>,
    skip_none: bool,
) -> GenOptions {
    GenOptions {
        derivatives: match derivatives {
            Some(d) => strs(d@),
            None => Seq::empty(),
        },
        before: annotations_view(annotations_before),
        after: annotations_view(annotations_after),
        field_annotations: mappings_view(field_annotations),
        skip_none,
    }
}

/// The imports that importing each of `imports`, in order, into `start`
/// gives.
pub open spec fn imports_added(start: Seq<(Seq<char>, Seq<Seq<char>>)>, imports: Seq<(Seq<char>, Seq<char>)>) -> Seq<
    (Seq<char>, Seq<Seq<char>>),
>
    decreases imports.len(),
{
    if imports.len() == 0 {
        start
    } else {
        let rest = imports_added(start, imports.drop_last());
        import_added(rest, imports.last().0, imports.last().1)
    }
}

/// The key by which field annotations are looked up for a schema kind.
pub open spec fn kind_key(k: SchemaForm) -> Option<Seq<char>> {
    match k {
        SchemaForm::TypeForm(TypeForm::String(s)) => if s.enumeration@.len() > 0 {
            Some("enum"@)
        } else {
            Some("string"@)
        },
        SchemaForm::TypeForm(TypeForm::Number(_)) => Some("number"@),
        SchemaForm::TypeForm(TypeForm::Integer(_)) => Some("integer"@),
        SchemaForm::TypeForm(TypeForm::Object(_)) => Some("object"@),
        SchemaForm::TypeForm(TypeForm::Array(_)) => Some("array"@),
        SchemaForm::TypeForm(TypeForm::Boolean) => Some("boolean"@),
        _ => None,
    }
}

/// The label that the doc comment gives a schema kind.
pub open spec fn kind_label(k: SchemaForm) -> Seq<char> {
    match k {
        SchemaForm::TypeForm(TypeForm::String(s)) => if s.enumeration@.len() > 0 {
            "string (enum)"@
        } else {
            "string"@
        },
        SchemaForm::TypeForm(TypeForm::Number(_)) => "number"@,
        SchemaForm::TypeForm(TypeForm::Integer(_)) => "integer"@,
        SchemaForm::TypeForm(TypeForm::Object(_)) => "object"@,
        SchemaForm::TypeForm(TypeForm::Array(_)) => "array"@,
        SchemaForm::TypeForm(TypeForm::Boolean) => "boolean"@,
        SchemaForm::OneOf(_) => "oneOf"@,
        SchemaForm::AnyOf(_) => "anyOf"@,
        SchemaForm::AllOf(_) => "allOf"@,
        SchemaForm::Not => "not"@,
        SchemaForm::Any => "any"@,
    }
}

/// The key of a property's schema: that of the schema in place, or of the
/// schema referred to (none where the map lacks it).
pub open spec fn prop_type_key(slot: RefOr<SchemaObject>, m: Map<Seq<char>, SchemaObject>) -> Option<Seq<char>> {
    match slot {
        RefOr::Item(s) => kind_key(s.kind),
        RefOr::Reference(r) => if m.contains_key(last_piece(r@)) {
            kind_key(m[last_piece(r@)].kind)
        } else {
            None
        },
    }
}

/// The description and label of a property's schema: those of the schema
/// in place or referred to; `reference` for a schema that the map lacks.
pub open spec fn prop_doc_info(slot: RefOr<SchemaObject>, m: Map<Seq<char>, SchemaObject>) -> (Option<Seq<char>>, Seq<char>) {
    match slot {
        RefOr::Item(s) => (opt_string(s.description), kind_label(s.kind)),
        RefOr::Reference(r) => if m.contains_key(last_piece(r@)) {
            (opt_string(m[last_piece(r@)].description), kind_label(m[last_piece(r@)].kind))
        } else {
            (None, "reference"@)
        },
    }
}

/// The doc comment of a type: a line for each line of the description and
/// an empty one after them, then the label.
pub open spec fn doc_items(desc: Option<Seq<char>>, label: Seq<char>) -> Seq<CodeItem> {
    let described = match desc {
        Some(d) => lines(d).map_values(|l: Seq<char>| CodeItem::Raw("/// "@ + l)).push(
            CodeItem::Raw("///"@),
        ),
        None => Seq::empty(),
    };
    described.push(CodeItem::Raw("/// Type: `"@ + label + "`"@))
}

/// The doc lines of a field: the lines of the description and an empty
/// one after them, then the label.
pub open spec fn field_docs(desc: Option<Seq<char>>, label: Seq<char>) -> Seq<Seq<char>> {
    let described = match desc {
        Some(d) => lines(d).push(Seq::empty()),
        None => Seq::empty(),
    };
    described.push("Type: `"@ + label + "`"@)
}

/// The type `name` is among the exceptions of an annotation.
pub open spec fn excepted(exceptions: Option<Seq<Seq<char>>>, name: Seq<char>) -> bool {
    match exceptions {
        Some(e) => e.contains(name),
        None => false,
    }
}

/// The annotations written for the type `name`: each, in order, unless
/// `name` is among its exceptions.
pub open spec fn annotation_items(anns: Seq<(Seq<char>, Option<Seq<Seq<char>>>)>, name: Seq<char>) -> Seq<
    CodeItem,
>
    decreases anns.len(),
{
    if anns.len() == 0 {
        Seq::empty()
    } else {
        let rest = annotation_items(anns.drop_last(), name);
        if excepted(anns.last().1, name) {
            rest
        } else {
            rest.push(CodeItem::Raw(anns.last().0))
        }
    }
}

/// The parts joined, with `sep` between each two.
pub open spec fn joined(parts: Seq<Seq<char>>, sep: Seq<char>) -> Seq<char>
    decreases parts.len(),
{
    if parts.len() == 0 {
        Seq::empty()
    } else if parts.len() == 1 {
        parts[0]
    } else {
        joined(parts.drop_last(), sep) + sep + parts.last()
    }
}

/// The derives of every type: `Debug`, then those asked for.
pub open spec fn derive_names(derivatives: Seq<Seq<char>>) -> Seq<Seq<char>> {
    seq!["Debug"@] + derivatives
}

/// The derive line.
pub open spec fn derive_line(derivatives: Seq<Seq<char>>) -> Seq<char> {
    "#[derive("@ + joined(derive_names(derivatives), ", "@) + ")]"@
}

/// What stands above a struct or enum: its doc comment, the annotations
/// before, the derive line, the annotations after.
pub open spec fn header_items(
    name: Seq<char>,
    desc: Option<Seq<char>>,
    label: Seq<char>,
    derivatives: Seq<Seq<char>>,
    before: Seq<(Seq<char>, Option<Seq<Seq<char>>>)>,
    after: Seq<(Seq<char>, Option<Seq<Seq<char>>>)>,
) -> Seq<CodeItem> {
    doc_items(desc, label) + annotation_items(before, name) + seq![CodeItem::Raw(derive_line(derivatives))]
        + annotation_items(after, name)
}

/// The field name for a property: snake case, made safe from keywords.
pub open spec fn field_name(pname: Seq<char>) -> Seq<char> {
    safe_identifier(snake_case(pname))
}

/// A property is optional where it is not required or is nullable in
/// place: its type is then in `Option<..>`.
pub open spec fn slot_optional(slot: RefOr<SchemaObject>, required: bool) -> bool {
    !required || slot_nullable(slot)
}

/// The annotations that the mappings give for the key: for each mapping of
/// that key, in order, its annotation for an optional or for a required
/// field.
pub open spec fn mapped_annotations(
    maps: Seq<(Seq<char>, Seq<char>, Seq<char>)>,
    key: Seq<char>,
    optional: bool,
) -> Seq<Seq<char>>
    decreases maps.len(),
{
    if maps.len() == 0 {
        Seq::empty()
    } else {
        let rest = mapped_annotations(maps.drop_last(), key, optional);
        if maps.last().0 == key {
            rest.push(
                if optional {
                    maps.last().2
                } else {
                    maps.last().1
                },
            )
        } else {
            rest
        }
    }
}

/// The annotation that skips an absent optional field when serializing.
pub open spec fn skip_none_line() -> Seq<char> {
    "#[serde(skip_serializing_if = \"Option::is_none\")]"@
}

/// The annotation that maps a field to its name in the document.
pub open spec fn rename_line(pname: Seq<char>) -> Seq<char> {
    "#[serde(rename = \""@ + pname + "\")]"@
}

/// The annotations of a struct field: those mapped for its key, the skip
/// annotation for an optional field where asked for, and a rename where the
/// field name differs from the property name.
pub open spec fn field_annotations_of(
    pname: Seq<char>,
    slot: RefOr<SchemaObject>,
    required: bool,
    m: Map<Seq<char>, SchemaObject>,
    maps: Seq<(Seq<char>, Seq<char>, Seq<char>)>,
    skip_none: bool,
) -> Seq<Seq<char>> {
    let optional = slot_optional(slot, required);
    let mapped = match prop_type_key(slot, m) {
        Some(k) => mapped_annotations(maps, k, optional),
        None => Seq::empty(),
    };
    let skipped = if skip_none && optional {
        mapped.push(skip_none_line())
    } else {
        mapped
    };
    if field_name(pname) != pname {
        skipped.push(rename_line(pname))
    } else {
        skipped
    }
}

/// The struct field for a property.
pub open spec fn field_of(
    pname: Seq<char>,
    slot: RefOr<SchemaObject>,
    required_names: Seq<Seq<char>>,
    m: Map<Seq<char>, SchemaObject>,
    maps: Seq<(Seq<char>, Seq<char>, Seq<char>)>,
    skip_none: bool,
) -> FieldDef {
    let required = required_names.contains(pname);
    let info = prop_doc_info(slot, m);
    FieldDef {
        name: "pub "@ + field_name(pname),
        ty: slot_type_name(slot, required),
        docs: field_docs(info.0, info.1),
        annotations: field_annotations_of(pname, slot, required, m, maps, skip_none),
    }
}

/// The fields of a struct, one for each property, in order.
pub open spec fn fields_of(
    props: Seq<(Seq<char>, RefOr<SchemaObject>)>,
    required_names: Seq<Seq<char>>,
    m: Map<Seq<char>, SchemaObject>,
    maps: Seq<(Seq<char>, Seq<char>, Seq<char>)>,
    skip_none: bool,
) -> Seq<FieldDef> {
    props.map_values(|p: (Seq<char>, RefOr<SchemaObject>)| field_of(p.0, p.1, required_names, m, maps, skip_none))
}

/// The items for an object: the header, then a public struct with a field
/// for each property.
pub open spec fn object_items(
    name: Seq<char>,
    props: Seq<(Seq<char>, RefOr<SchemaObject>)>,
    required_names: Seq<Seq<char>>,
    m: Map<Seq<char>, SchemaObject>,
    desc: Option<Seq<char>>,
    label: Seq<char>,
    opts: GenOptions,
) -> Seq<CodeItem> {
    header_items(name, desc, label, opts.derivatives, opts.before, opts.after).push(
        CodeItem::Struct(
            StructDef {
                name,
                vis: Some("pub"@),
                fields: fields_of(props, required_names, m, opts.field_annotations, opts.skip_none),
            },
        ),
    )
}

/// The values of a string enum, its `null` values left out.
pub open spec fn present_values(e: Seq<Option<String>>) -> Seq<Seq<char>>
    decreases e.len(),
{
    if e.len() == 0 {
        Seq::empty()
    } else {
        match e.last() {
            Some(v) => present_values(e.drop_last()).push(v@),
            None => present_values(e.drop_last()),
        }
    }
}

/// The text of a string enum's variant: `#[default]` for the first where
/// `Default` is derived, and a rename where the variant name (the value in
/// upper camel case) differs from the value.
pub open spec fn variant_text(value: Seq<char>, default_first: bool) -> Seq<char> {
    let pascal = upper_camel_case(value);
    let default_attr = if default_first {
        "#[default]\n    "@
    } else {
        Seq::<char>::empty()
    };
    if pascal == value {
        default_attr + pascal
    } else {
        default_attr + "#[serde(rename = \""@ + value + "\")]\n    "@ + pascal
    }
}

/// The items for a string enum: the header, then a public enum with a
/// variant for each value.
pub open spec fn string_enum_items(
    name: Seq<char>,
    values: Seq<Seq<char>>,
    desc: Option<Seq<char>>,
    label: Seq<char>,
    opts: GenOptions,
) -> Seq<CodeItem> {
    let has_default = derive_names(opts.derivatives).contains("Default"@);
    header_items(name, desc, label, opts.derivatives, opts.before, opts.after).push(
        CodeItem::Enum(
            EnumDef {
                name,
                vis: Some("pub"@),
                variants: values.map(|i: int, v: Seq<char>| variant_text(v, has_default && i == 0)),
            },
        ),
    )
}

/// The items for a type alias: the doc comment, then `pub type`.
pub open spec fn alias_items(name: Seq<char>, t: TypeForm, desc: Option<Seq<char>>, label: Seq<char>) -> Seq<CodeItem> {
    doc_items(desc, label).push(CodeItem::Raw("pub type "@ + name + " = "@ + rust_type(t) + ";"@))
}

/// The items for a schema that is a type.
pub open spec fn type_items(
    name: Seq<char>,
    t: TypeForm,
    m: Map<Seq<char>, SchemaObject>,
    desc: Option<Seq<char>>,
    label: Seq<char>,
    opts: GenOptions,
) -> Seq<CodeItem> {
    match t {
        TypeForm::Object(o) => object_items(
            name,
            o.properties@.map_values(|p: (String, RefOr<SchemaObject>)| (p.0@, p.1)),
            names_of(o.required@),
            m,
            desc,
            label,
            opts,
        ),
        TypeForm::String(s) => if s.enumeration@.len() > 0 {
            string_enum_items(name, present_values(s.enumeration@), desc, label, opts)
        } else {
            alias_items(name, t, desc, label)
        },
        _ => alias_items(name, t, desc, label),
    }
}

/// The name of the `i`-th member, given in place, of an `anyOf` or `oneOf`
/// of `parent`: its title where it has one, else `{parent}Variant{i}`.
pub open spec fn inline_name(s: SchemaObject, parent: Seq<char>, i: nat) -> Seq<char> {
    match title_name(s.title) {
        Some(n) => n,
        None => parent + "Variant"@ + decimal(i),
    }
}

/// The lines of a field of an enum variant.
pub open spec fn variant_field_text(
    pname: Seq<char>,
    slot: RefOr<SchemaObject>,
    required_names: Seq<Seq<char>>,
    skip_none: bool,
) -> Seq<char> {
    let required = required_names.contains(pname);
    let skip = if skip_none && slot_optional(slot, required) {
        "        "@ + skip_none_line() + "\n"@
    } else {
        Seq::empty()
    };
    let rename = if field_name(pname) != pname {
        "        "@ + rename_line(pname) + "\n"@
    } else {
        Seq::empty()
    };
    skip + rename + ("        "@ + field_name(pname) + ": "@ + slot_type_name(slot, required) + ",\n"@)
}

/// The lines of the fields of an enum variant.
pub open spec fn variant_fields_text(
    props: Seq<(String, RefOr<SchemaObject>)>,
    required_names: Seq<Seq<char>>,
    skip_none: bool,
) -> Seq<char>
    decreases props.len(),
{
    if props.len() == 0 {
        Seq::empty()
    } else {
        variant_fields_text(props.drop_last(), required_names, skip_none) + variant_field_text(
            props.last().0@,
            props.last().1,
            required_names,
            skip_none,
        )
    }
}

/// The lines of the `i`-th member of an `anyOf` or `oneOf` of `parent`:
/// a reference becomes a variant named after the type and holding it; an
/// object with properties a variant with those fields; anything else a
/// variant named `inline_name` holding its type.
pub open spec fn member_text(member: RefOr<SchemaObject>, parent: Seq<char>, i: nat, skip_none: bool) -> Seq<char> {
    match member {
        RefOr::Reference(r) => "    "@ + reference_type_name(r@) + "("@ + reference_type_name(r@) + "),\n"@,
        RefOr::Item(s) => {
            let vname = inline_name(s, parent, i);
            match s.kind {
                SchemaForm::TypeForm(TypeForm::Object(o)) => if o.properties@.len() > 0 {
                    "    "@ + vname + " {\n"@ + variant_fields_text(
                        o.properties@,
                        names_of(o.required@),
                        skip_none,
                    ) + "    },\n"@
                } else {
                    "    "@ + vname + "("@ + kind_type_name(s.kind) + "),\n"@
                },
                _ => "    "@ + vname + "("@ + kind_type_name(s.kind) + "),\n"@,
            }
        },
    }
}

/// The lines of the first `n` members.
pub open spec fn members_text(ms: Seq<RefOr<SchemaObject>>, parent: Seq<char>, n: nat, skip_none: bool) -> Seq<char>
    decreases n,
{
    if n == 0 {
        Seq::empty()
    } else {
        members_text(ms, parent, (n - 1) as nat, skip_none) + member_text(
            ms[n - 1],
            parent,
            (n - 1) as nat,
            skip_none,
        )
    }
}

/// The text of the enum for an `anyOf` or `oneOf`.
pub open spec fn enum_body(name: Seq<char>, ms: Seq<RefOr<SchemaObject>>, skip_none: bool) -> Seq<char> {
    "pub enum "@ + name + " {\n"@ + members_text(ms, name, ms.len(), skip_none) + "}"@
}

/// The items for an `anyOf` or `oneOf`: the header, then the enum as raw
/// text.
pub open spec fn enum_items(
    name: Seq<char>,
    ms: Seq<RefOr<SchemaObject>>,
    desc: Option<Seq<char>>,
    label: Seq<char>,
    opts: GenOptions,
) -> Seq<CodeItem> {
    header_items(name, desc, label, opts.derivatives, opts.before, opts.after).push(
        CodeItem::Raw(enum_body(name, ms, opts.skip_none)),
    )
}

/// The items written for the schema `name` of `m`, under its sanitized
/// name.
pub open spec fn schema_items(name: Seq<char>, m: Map<Seq<char>, SchemaObject>, opts: GenOptions) -> Seq<CodeItem> {
    let s = m[name];
    let safe = sanitized(name);
    let desc = opt_string(s.description);
    let label = kind_label(s.kind);
    match s.kind {
        SchemaForm::TypeForm(t) => type_items(safe, t, m, desc, label, opts),
        SchemaForm::OneOf(ms) => enum_items(safe, ms@, desc, label, opts),
        SchemaForm::AnyOf(ms) => enum_items(safe, ms@, desc, label, opts),
        SchemaForm::AllOf(_) => {
            let merged = all_of_merged(name, m);
            object_items(safe, merged.props, merged.required, m, desc, label, opts)
        },
        _ => Seq::empty(),
    }
}

/// The items written for the schemas named `names`, in order.
pub open spec fn map_items(names: Seq<Seq<char>>, m: Map<Seq<char>, SchemaObject>, opts: GenOptions) -> Seq<CodeItem>
    decreases names.len(),
{
    if names.len() == 0 {
        Seq::empty()
    } else {
        map_items(names.drop_last(), m, opts) + schema_items(names.last(), m, opts)
    }
}

/// The type of every property can be written.
pub open spec fn props_render(props: Seq<(Seq<char>, RefOr<SchemaObject>)>) -> bool {
    forall|i: int| 0 <= i < props.len() ==> slot_renders(#[trigger] props[i].1)
}

/// What an `anyOf` or `oneOf` member needs written can be written.
pub open spec fn member_renders(member: RefOr<SchemaObject>) -> bool {
    match member {
        RefOr::Reference(_) => true,
        RefOr::Item(s) => match s.kind {
            SchemaForm::TypeForm(TypeForm::Object(o)) => if o.properties@.len() > 0 {
                forall|j: int| 0 <= j < o.properties@.len() ==> slot_renders(#[trigger] o.properties@[j].1)
            } else {
                true
            },
            _ => kind_renders(s.kind),
        },
    }
}

/// Everything written for the schema `name` of `m` can be written: every
/// reference on the way is one to a component schema, and every array on
/// the way has items.
pub open spec fn schema_renders(name: Seq<char>, m: Map<Seq<char>, SchemaObject>) -> bool {
    match m[name].kind {
        SchemaForm::TypeForm(TypeForm::Object(o)) => forall|j: int|
            0 <= j < o.properties@.len() ==> slot_renders(#[trigger] o.properties@[j].1),
        SchemaForm::TypeForm(t) => type_renders(t),
        SchemaForm::OneOf(ms) => forall|j: int| 0 <= j < ms@.len() ==> member_renders(#[trigger] ms@[j]),
        SchemaForm::AnyOf(ms) => forall|j: int| 0 <= j < ms@.len() ==> member_renders(#[trigger] ms@[j]),
        SchemaForm::AllOf(_) => props_render(all_of_merged(name, m).props),
        _ => true,
    }
}

/// Every schema of `m` can be written.
pub open spec fn map_renders(m: Map<Seq<char>, SchemaObject>) -> bool {
    forall|k: Seq<char>| #[trigger] m.contains_key(k) ==> schema_renders(k, m)
}


fn schema_kind_key(sk: &SchemaForm) -> (r: Option<&'static str>)
    ensures
        opt_str(r) == kind_key(*sk),
{
    match sk {
        SchemaForm::TypeForm(TypeForm::String(s)) => if s.enumeration.len() > 0 {
            Some("enum")
        } else {
            Some("string")
        },
        SchemaForm::TypeForm(TypeForm::Number(_)) => Some("number"),
        SchemaForm::TypeForm(TypeForm::Integer(_)) => Some("integer"),
        SchemaForm::TypeForm(TypeForm::Object(_)) => Some("object"),
        SchemaForm::TypeForm(TypeForm::Array(_)) => Some("array"),
        SchemaForm::TypeForm(TypeForm::Boolean) => Some("boolean"),
        _ => None,
    }
}

fn property_type_key(refor: &RefOr<SchemaObject>, schemas: &SchemaMap) -> (r: Option<&'static str>)
    requires
        schemas.wf(),
    ensures
        opt_str(r) == prop_type_key(*refor, schemas@),
{
    match refor {
        RefOr::Item(s) => schema_kind_key(&s.kind),
        RefOr::Reference(reference) => {
            let key = last_piece_of(reference.as_str());
            match schemas.get(key.as_str()) {
                Some(t) => schema_kind_key(&t.kind),
                None => None,
            }
        },
    }
}

fn schema_kind_label(sk: &SchemaForm) -> (r: &'static str)
    ensures
        r@ == kind_label(*sk),
{
    match sk {
        SchemaForm::TypeForm(TypeForm::String(s)) => if s.enumeration.len() > 0 {
            "string (enum)"
        } else {
            "string"
        },
        SchemaForm::TypeForm(TypeForm::Number(_)) => "number",
        SchemaForm::TypeForm(TypeForm::Integer(_)) => "integer",
        SchemaForm::TypeForm(TypeForm::Object(_)) => "object",
        SchemaForm::TypeForm(TypeForm::Array(_)) => "array",
        SchemaForm::TypeForm(TypeForm::Boolean) => "boolean",
        SchemaForm::OneOf(_) => "oneOf",
        SchemaForm::AnyOf(_) => "anyOf",
        SchemaForm::AllOf(_) => "allOf",
        SchemaForm::Not => "not",
        SchemaForm::Any => "any",
    }
}

/// The description of a schema, borrowed.
fn description_of(s: &SchemaObject) -> (r: Option<&str>)
    ensures
        opt_str(r) == opt_string(s.description),
{
    match &s.description {
        Some(d) => Some(d.as_str()),
        None => None,
    }
}

fn property_doc_info<'a>(refor: &'a RefOr<SchemaObject>, schemas: &'a SchemaMap) -> (r: (Option<&'a str>, &'a str))
    requires
        schemas.wf(),
    ensures
        (opt_str(r.0), r.1@) == prop_doc_info(*refor, schemas@),
{
    match refor {
        RefOr::Item(s) => (description_of(s), schema_kind_label(&s.kind)),
        RefOr::Reference(reference) => {
            let key = last_piece_of(reference.as_str());
            match schemas.get(key.as_str()) {
                Some(target) => (description_of(target), schema_kind_label(&target.kind)),
                None => (None, "reference"),
            }
        },
    }
}

/// Pushes the doc comment of a type: a line for each line of the
/// description and an empty one after them, then the label.
fn emit_doc(scope: &mut codegen::Scope, description: Option<&str>, type_label: &str)
    ensures
        scope_items(*final(scope)) == scope_items(*old(scope)) + doc_items(opt_str(description), type_label@),
        scope_imports(*final(scope)) == scope_imports(*old(scope)),
{
    let ghost items0 = scope_items(*scope);
    let ghost described: Seq<CodeItem> = Seq::empty();
    if let Some(desc) = description {
        let ls = split_lines(desc);
        let mut i: usize = 0;
        while i < ls.len()
            invariant
                i <= ls@.len(),
                ls@.len() == lines(desc@).len(),
                forall|j: int| 0 <= j < ls@.len() ==> #[trigger] ls@[j]@ == lines(desc@)[j],
                scope_items(*scope) == items0 + lines(desc@).subrange(0, i as int).map_values(
                    |l: Seq<char>| CodeItem::Raw("/// "@ + l),
                ),
                scope_imports(*scope) == scope_imports(*old(scope)),
            decreases ls@.len() - i,
        {
            let mut line = string_from("/// ");
            push_str(&mut line, ls[i].as_str());
            scope_raw(scope, line.as_str());
            i = i + 1;
            assert(lines(desc@).subrange(0, i as int).map_values(|l: Seq<char>| CodeItem::Raw("/// "@ + l))
                =~= lines(desc@).subrange(0, i - 1).map_values(|l: Seq<char>| CodeItem::Raw("/// "@ + l)).push(
                CodeItem::Raw("/// "@ + lines(desc@)[i - 1]),
            ));
        }
        scope_raw(scope, "///");
        assert(lines(desc@).subrange(0, ls@.len() as int) =~= lines(desc@));
    }
    let mut last = string_from("/// Type: `");
    push_str(&mut last, type_label);
    push_str(&mut last, "`");
    scope_raw(scope, last.as_str());
    assert(scope_items(*scope) =~= items0 + doc_items(opt_str(description), type_label@));
}

/// The doc lines of a field: the lines of the description and an empty
/// one after them, then the label.
pub fn field_doc_lines(description: Option<&str>, type_label: &str) -> (r: Vec<String>)
    ensures
        names_of(r@) == field_docs(opt_str(description), type_label@),
{
    let mut r: Vec<String> = Vec::new();
    if let Some(desc) = description {
        let ls = split_lines(desc);
        let mut i: usize = 0;
        while i < ls.len()
            invariant
                i <= ls@.len(),
                ls@.len() == lines(desc@).len(),
                forall|j: int| 0 <= j < ls@.len() ==> #[trigger] ls@[j]@ == lines(desc@)[j],
                names_of(r@) == lines(desc@).subrange(0, i as int),
                r@.len() == i,
            decreases ls@.len() - i,
        {
            let ghost r0 = r@;
            let line = ls[i].clone();
            assert(line@ == lines(desc@)[i as int]);
            r.push(line);
            assert(r@[i as int]@ == lines(desc@)[i as int]);
            assert(names_of(r@) =~= names_of(r0).push(lines(desc@)[i as int]));
            i = i + 1;
            assert(names_of(r@) =~= lines(desc@).subrange(0, i as int));
        }
        let ghost r1 = r@;
        assert(lines(desc@).subrange(0, ls@.len() as int) =~= lines(desc@));
        r.push(String::new());
        assert(names_of(r@) =~= names_of(r1).push(Seq::empty()));
        assert(names_of(r@) =~= lines(desc@).push(Seq::empty()));
    }
    let mut last = string_from("Type: `");
    push_str(&mut last, type_label);
    push_str(&mut last, "`");
    let ghost r0 = r@;
    r.push(last);
    assert(names_of(r@) =~= names_of(r0).push(last@));
    r
}

/// Whether `name` is among `names`.
fn contains_str(names: &[&str], name: &str) -> (b: bool)
    ensures
        b == strs(names@).contains(name@),
{
    let mut i: usize = 0;
    while i < names.len()
        invariant
            i <= names@.len(),
            forall|j: int| 0 <= j < i ==> names@[j]@ != name@,
        decreases names@.len() - i,
    {
        if compare_names(names[i], name) == 0 {
            assert(strs(names@)[i as int] == name@);
            return true;
        }
        i = i + 1;
    }
    proof {
        if strs(names@).contains(name@) {
            let j = choose|j: int| 0 <= j < names@.len() && #[trigger] strs(names@)[j] == name@;
            assert(names@[j]@ == name@);
        }
    }
    false
}

/// Pushes each annotation unless the type `name` is among its exceptions.
fn emit_annotations(scope: &mut codegen::Scope, annotations: Option<&[(&str, Option<&[&str]>)]>, name: &str)
    ensures
        scope_items(*final(scope)) == scope_items(*old(scope)) + annotation_items(
            annotations_view(annotations),
            name@,
        ),
        scope_imports(*final(scope)) == scope_imports(*old(scope)),
{
    let ghost items0 = scope_items(*scope);
    if let Some(anns) = annotations {
        let ghost av = annotations_view(annotations);
        let mut i: usize = 0;
        while i < anns.len()
            invariant
                i <= anns@.len(),
                av == annotations_view(Some(anns)),
                av.len() == anns@.len(),
                scope_items(*scope) == items0 + annotation_items(av.subrange(0, i as int), name@),
                scope_imports(*scope) == scope_imports(*old(scope)),
            decreases anns@.len() - i,
        {
            let (annotation, exceptions) = anns[i];
            let is_exception = match exceptions {
                Some(e) => contains_str(e, name),
                None => false,
            };
            assert(av[i as int].0 == annotation@);
            assert(is_exception == excepted(av[i as int].1, name@));
            if !is_exception {
                scope_raw(scope, annotation);
            }
            i = i + 1;
            assert(av.subrange(0, i as int).drop_last() =~= av.subrange(0, i - 1));
        }
        assert(av.subrange(0, anns@.len() as int) =~= av);
    } else {
        assert(scope_items(*scope) =~= items0 + annotation_items(annotations_view(annotations), name@));
    }
}

/// The derives of every type: `Debug`, then those asked for.
fn derive_list<'a>(derivatives: Option<&'a [&'a str]>) -> (r: Vec<&'a str>)
    ensures
        strs(r@) == derive_names(
            match derivatives {
                Some(d) => strs(d@),
                None => Seq::empty(),
            },
        ),
{
    let mut derivs: Vec<&'a str> = Vec::new();
    derivs.push("Debug");
    let ghost dv = match derivatives {
        Some(d) => strs(d@),
        None => Seq::<Seq<char>>::empty(),
    };
    if let Some(ds) = derivatives {
        let mut i: usize = 0;
        while i < ds.len()
            invariant
                i <= ds@.len(),
                dv == strs(ds@),
                strs(derivs@) == seq!["Debug"@] + dv.subrange(0, i as int),
            decreases ds@.len() - i,
        {
            let ghost d0 = derivs@;
            derivs.push(ds[i]);
            assert(strs(derivs@) =~= strs(d0).push(dv[i as int]));
            i = i + 1;
            assert(strs(derivs@) =~= seq!["Debug"@] + dv.subrange(0, i as int));
        }
        assert(dv.subrange(0, ds@.len() as int) =~= dv);
    } else {
        assert(strs(derivs@) =~= seq!["Debug"@] + dv);
    }
    derivs
}

/// The derive line for the derives `derivs`.
fn derive_text(derivs: &Vec<&str>) -> (r: String)
    requires
        derivs@.len() >= 1,
    ensures
        r@ == "#[derive("@ + joined(strs(derivs@), ", "@) + ")]"@,
{
    let mut r = string_from("#[derive(");
    push_str(&mut r, derivs[0]);
    let mut i: usize = 1;
    assert(strs(derivs@).subrange(0, 1) =~= seq![derivs@[0]@]);
    while i < derivs.len()
        invariant
            1 <= i <= derivs@.len(),
            r@ == "#[derive("@ + joined(strs(derivs@).subrange(0, i as int), ", "@),
        decreases derivs@.len() - i,
    {
        push_str(&mut r, ", ");
        push_str(&mut r, derivs[i]);
        i = i + 1;
        assert(strs(derivs@).subrange(0, i as int).drop_last() =~= strs(derivs@).subrange(0, i - 1));
    }
    assert(strs(derivs@).subrange(0, derivs@.len() as int) =~= strs(derivs@));
    push_str(&mut r, ")]");
    r
}

/// Whether `Default` is among the derives.
fn has_default_derive(derivs: &Vec<&str>) -> (b: bool)
    ensures
        b == strs(derivs@).contains("Default"@),
{
    let mut i: usize = 0;
    while i < derivs.len()
        invariant
            i <= derivs@.len(),
            forall|j: int| 0 <= j < i ==> derivs@[j]@ != "Default"@,
        decreases derivs@.len() - i,
    {
        if compare_names(derivs[i], "Default") == 0 {
            assert(strs(derivs@)[i as int] == "Default"@);
            return true;
        }
        i = i + 1;
    }
    proof {
        if strs(derivs@).contains("Default"@) {
            let j = choose|j: int| 0 <= j < derivs@.len() && #[trigger] strs(derivs@)[j] == "Default"@;
            assert(derivs@[j]@ == "Default"@);
        }
    }
    false
}

/// Pushes what stands above a struct or enum: its doc comment, the
/// annotations before, the derive line, the annotations after.
fn emit_header(
    scope: &mut codegen::Scope,
    name: &str,
    description: Option<&str>,
    type_label: &str,
    derivatives: Option<&[&str]>,
    annotations_before: Option<&[(&str, Option<&[&str]>)]>,
    annotations_after: Option<&[(&str, Option<&[&str]>)]>,
)
    ensures
        scope_items(*final(scope)) == scope_items(*old(scope)) + header_items(
            name@,
            opt_str(description),
            type_label@,
            gen_options(derivatives, annotations_before, annotations_after, None, false).derivatives,
            annotations_view(annotations_before),
            annotations_view(annotations_after),
        ),
        scope_imports(*final(scope)) == scope_imports(*old(scope)),
{
    let ghost items0 = scope_items(*scope);
    let ghost opts = gen_options(derivatives, annotations_before, annotations_after, None, false);
    emit_doc(scope, description, type_label);
    emit_annotations(scope, annotations_before, name);
    let derivs = derive_list(derivatives);
    let line = derive_text(&derivs);
    scope_raw(scope, line.as_str());
    emit_annotations(scope, annotations_after, name);
    assert(scope_items(*scope) =~= items0 + header_items(
        name@,
        opt_str(description),
        type_label@,
        opts.derivatives,
        opts.before,
        opts.after,
    ));
}


/// Appends the annotations that the mappings give for `key`.
fn push_mapped_annotations(out: &mut Vec<String>, mappings: &[(&str, &str, &str)], key: &str, optional: bool)
    ensures
        names_of(final(out)@) == names_of(old(out)@) + mapped_annotations(
            mappings_view(Some(mappings)),
            key@,
            optional,
        ),
{
    let ghost mv = mappings_view(Some(mappings));
    let ghost o0 = names_of(out@);
    let mut i: usize = 0;
    while i < mappings.len()
        invariant
            i <= mappings@.len(),
            mv == mappings_view(Some(mappings)),
            mv.len() == mappings@.len(),
            names_of(out@) == o0 + mapped_annotations(mv.subrange(0, i as int), key@, optional),
        decreases mappings@.len() - i,
    {
        let (k, required_ann, optional_ann) = mappings[i];
        assert(mv[i as int] == (k@, required_ann@, optional_ann@));
        assert(mv.subrange(0, i + 1).drop_last() =~= mv.subrange(0, i as int));
        if compare_names(k, key) == 0 {
            let ann = if optional {
                optional_ann
            } else {
                required_ann
            };
            let ghost before = out@;
            out.push(string_from(ann));
            assert(names_of(out@) =~= names_of(before).push(ann@));
        }
        i = i + 1;
    }
    assert(mv.subrange(0, mappings@.len() as int) =~= mv);
}

/// The struct field for the property `pname`.
fn build_field(
    pname: &String,
    slot: &RefOr<SchemaObject>,
    required: &Vec<String>,
    schemas: &SchemaMap,
    field_annotations: Option<&[(&str, &str, &str)]>,
    skip_none: bool,
) -> (f: codegen::Field)
    requires
        schemas.wf(),
        slot_renders(*slot),
    ensures
        field_def(f) == field_of(
            pname@,
            *slot,
            names_of(required@),
            schemas@,
            mappings_view(field_annotations),
            skip_none,
        ),
{
    let is_required = contains_name(required, pname.as_str());
    let (field_desc, field_label) = property_doc_info(slot, schemas);
    let type_key = property_type_key(slot, schemas);
    let nullable_inline = match slot {
        RefOr::Item(s) => s.nullable,
        RefOr::Reference(_) => false,
    };
    let doc_lines = field_doc_lines(field_desc, field_label);
    let t = get_property_type_from_schema_refor(slot, is_required);
    let snake = into_safe(to_snek_case(pname.as_str()));
    let mut fname = string_from("pub ");
    push_str(&mut fname, snake.as_str());
    let mut field = field_new(fname.as_str(), t.as_str());
    field_doc(&mut field, &doc_lines);
    let is_optional = !is_required || nullable_inline;
    let mut annotations: Vec<String> = Vec::new();
    if let Some(key) = type_key {
        if let Some(mappings) = field_annotations {
            push_mapped_annotations(&mut annotations, mappings, key, is_optional);
        }
    }
    let ghost a0 = names_of(annotations@);
    if skip_none && is_optional {
        annotations.push(string_from("#[serde(skip_serializing_if = \"Option::is_none\")]"));
        assert(names_of(annotations@) =~= a0.push(skip_none_line()));
    }
    let ghost a1 = names_of(annotations@);
    if !(snake == *pname) {
        let mut rename = string_from("#[serde(rename = \"");
        push_str(&mut rename, pname.as_str());
        push_str(&mut rename, "\")]");
        annotations.push(rename);
        assert(names_of(annotations@) =~= a1.push(rename_line(pname@)));
    }
    if annotations.len() > 0 {
        field_annotation(&mut field, &annotations);
    }
    proof {
        let fa = field_annotations_of(
            pname@,
            *slot,
            is_required,
            schemas@,
            mappings_view(field_annotations),
            skip_none,
        );
        if type_key.is_none() || field_annotations.is_none() {
            assert(a0 =~= Seq::<Seq<char>>::empty());
        }
        assert(names_of(annotations@) == fa);
        if annotations@.len() == 0 {
            assert(annotations@.map_values(|a: String| a@) =~= Seq::<Seq<char>>::empty());
        } else {
            assert(annotations@.map_values(|a: String| a@) == names_of(annotations@));
        }
    }
    field
}

/// The slots of `props`, with their names.
pub open spec fn props_view<'a>(props: Seq<(String, &'a RefOr<SchemaObject>)>) -> Seq<(Seq<char>, RefOr<SchemaObject>)> {
    props.map_values(|e: (String, &'a RefOr<SchemaObject>)| (e.0@, *e.1))
}

/// Pushes the items for an object: the header, then a public struct with
/// a field for each property.
#[verifier::loop_isolation(false)]
fn emit_object(
    scope: &mut codegen::Scope,
    name: &str,
    props: &Vec<(String, &RefOr<SchemaObject>)>,
    required: &Vec<String>,
    schemas: &SchemaMap,
    description: Option<&str>,
    type_label: &str,
    derivatives: Option<&[&str]>,
    annotations_before: Option<&[(&str, Option<&[&str]>)]>,
    annotations_after: Option<&[(&str, Option<&[&str]>)]>,
    field_annotations: Option<&[(&str, &str, &str)]>,
    skip_none: bool,
)
    requires
        schemas.wf(),
        props_render(props_view(props@)),
    ensures
        scope_items(*final(scope)) == scope_items(*old(scope)) + object_items(
            name@,
            props_view(props@),
            names_of(required@),
            schemas@,
            opt_str(description),
            type_label@,
            gen_options(derivatives, annotations_before, annotations_after, field_annotations, skip_none),
        ),
        scope_imports(*final(scope)) == scope_imports(*old(scope)),
{
    let ghost items0 = scope_items(*scope);
    let ghost opts = gen_options(derivatives, annotations_before, annotations_after, field_annotations, skip_none);
    emit_header(scope, name, description, type_label, derivatives, annotations_before, annotations_after);
    let mut st = struct_new(name);
    struct_vis(&mut st, "pub");
    let ghost pv = props_view(props@);
    let ghost rv = names_of(required@);
    let mut i: usize = 0;
    while i < props.len()
        invariant
            i <= props@.len(),
            pv == props_view(props@),
            pv.len() == props@.len(),
            props_render(pv),
            schemas.wf(),
            struct_def(st) == (StructDef {
                name: name@,
                vis: Some("pub"@),
                fields: fields_of(pv.subrange(0, i as int), rv, schemas@, opts.field_annotations, opts.skip_none),
            }),
        decreases props@.len() - i,
    {
        let (pname, slot) = (&props[i].0, props[i].1);
        assert(pv[i as int] == (pname@, *slot));
        assert(slot_renders(pv[i as int].1));
        let field = build_field(pname, slot, required, schemas, field_annotations, skip_none);
        struct_push_field(&mut st, field);
        i = i + 1;
        assert(fields_of(pv.subrange(0, i as int), rv, schemas@, opts.field_annotations, opts.skip_none)
            =~= fields_of(pv.subrange(0, i - 1), rv, schemas@, opts.field_annotations, opts.skip_none).push(
            field_of(pname@, *slot, rv, schemas@, opts.field_annotations, opts.skip_none),
        ));
    }
    assert(pv.subrange(0, props@.len() as int) =~= pv);
    scope_push_struct(scope, st);
    assert(scope_items(*scope) =~= items0 + object_items(
        name@,
        pv,
        rv,
        schemas@,
        opt_str(description),
        type_label@,
        opts,
    ));
}


/// Pushes the items for a string enum: the header, then a public enum with
/// a variant for each value that is not `null`.
#[verifier::loop_isolation(false)]
fn generate_string_enum(
    scope: &mut codegen::Scope,
    name: &str,
    s: &StringType,
    description: Option<&str>,
    type_label: &str,
    derivatives: Option<&[&str]>,
    annotations_before: Option<&[(&str, Option<&[&str]>)]>,
    annotations_after: Option<&[(&str, Option<&[&str]>)]>,
)
    ensures
        scope_items(*final(scope)) == scope_items(*old(scope)) + string_enum_items(
            name@,
            present_values(s.enumeration@),
            opt_str(description),
            type_label@,
            gen_options(derivatives, annotations_before, annotations_after, None, false),
        ),
        scope_imports(*final(scope)) == scope_imports(*old(scope)),
{
    let ghost items0 = scope_items(*scope);
    let ghost opts = gen_options(derivatives, annotations_before, annotations_after, None, false);
    emit_header(scope, name, description, type_label, derivatives, annotations_before, annotations_after);
    let derivs = derive_list(derivatives);
    let has_default = has_default_derive(&derivs);
    let ghost texts = |i: int, v: Seq<char>| variant_text(v, has_default && i == 0);
    let mut e = enum_new(name);
    enum_vis(&mut e, "pub");
    let mut count: usize = 0;
    let mut j: usize = 0;
    while j < s.enumeration.len()
        invariant
            j <= s.enumeration@.len(),
            count == present_values(s.enumeration@.subrange(0, j as int)).len(),
            count <= j,
            enum_def(e) == (EnumDef {
                name: name@,
                vis: Some("pub"@),
                variants: present_values(s.enumeration@.subrange(0, j as int)).map(texts),
            }),
        decreases s.enumeration@.len() - j,
    {
        let ghost pv0 = present_values(s.enumeration@.subrange(0, j as int));
        assert(s.enumeration@.subrange(0, j + 1).drop_last() =~= s.enumeration@.subrange(0, j as int));
        if let Some(variant) = &s.enumeration[j] {
            let pascal = to_pascal_case(variant.as_str());
            let mut text = if has_default && count == 0 {
                string_from("#[default]\n    ")
            } else {
                String::new()
            };
            if pascal == *variant {
                push_str(&mut text, pascal.as_str());
            } else {
                push_str(&mut text, "#[serde(rename = \"");
                push_str(&mut text, variant.as_str());
                push_str(&mut text, "\")]\n    ");
                push_str(&mut text, pascal.as_str());
            }
            assert(text@ == variant_text(variant@, has_default && count == 0));
            enum_new_variant(&mut e, text.as_str());
            assert(pv0.push(variant@).map(texts) =~= pv0.map(texts).push(text@));
            count = count + 1;
        }
        j = j + 1;
    }
    assert(s.enumeration@.subrange(0, s.enumeration@.len() as int) =~= s.enumeration@);
    scope_push_enum(scope, e);
    assert(derive_names(opts.derivatives) == strs(derivs@));
    assert(scope_items(*scope) =~= items0 + string_enum_items(
        name@,
        present_values(s.enumeration@),
        opt_str(description),
        type_label@,
        opts,
    ));
}

/// The name of the `i`-th member, given in place, of an `anyOf` or `oneOf`
/// of `parent`: its title in upper camel case where it has one, else
/// `{parent}Variant{i}`.
fn inline_variant_name(s: &SchemaObject, parent: &str, i: usize) -> (r: String)
    ensures
        r@ == inline_name(*s, parent@, i as nat),
{
    if let Some(title) = &s.title {
        let trimmed = trim(title.as_str());
        if trimmed.unicode_len() > 0 {
            return to_pascal_case(trimmed.as_str());
        }
    }
    let mut r = string_from(parent);
    push_str(&mut r, "Variant");
    push_decimal(&mut r, i as u64);
    assert(r@ =~= parent@ + "Variant"@ + decimal(i as nat));
    r
}

/// Appends the lines of a field of an enum variant.
fn push_variant_field(
    body: &mut String,
    pname: &String,
    slot: &RefOr<SchemaObject>,
    required: &Vec<String>,
    skip_none: bool,
)
    requires
        slot_renders(*slot),
    ensures
        final(body)@ == old(body)@ + variant_field_text(pname@, *slot, names_of(required@), skip_none),
{
    let is_required = contains_name(required, pname.as_str());
    let ty = get_property_type_from_schema_refor(slot, is_required);
    let snake = into_safe(to_snek_case(pname.as_str()));
    let nullable_inline = match slot {
        RefOr::Item(s) => s.nullable,
        RefOr::Reference(_) => false,
    };
    let mut skip = String::new();
    if skip_none && (!is_required || nullable_inline) {
        push_str(&mut skip, "        ");
        push_str(&mut skip, "#[serde(skip_serializing_if = \"Option::is_none\")]");
        push_str(&mut skip, "\n");
    }
    let mut rename = String::new();
    if !(snake == *pname) {
        push_str(&mut rename, "        ");
        push_str(&mut rename, "#[serde(rename = \"");
        push_str(&mut rename, pname.as_str());
        push_str(&mut rename, "\")]");
        push_str(&mut rename, "\n");
    }
    let mut decl = string_from("        ");
    push_str(&mut decl, snake.as_str());
    push_str(&mut decl, ": ");
    push_str(&mut decl, ty.as_str());
    push_str(&mut decl, ",\n");
    proof {
        let e = Seq::<char>::empty();
        assert(skip@ =~= (if skip_none && slot_optional(*slot, is_required) {
            "        "@ + skip_none_line() + "\n"@
        } else {
            e
        }));
        assert(rename@ =~= (if field_name(pname@) != pname@ {
            "        "@ + rename_line(pname@) + "\n"@
        } else {
            e
        }));
    }
    let ghost b0 = body@;
    push_str(body, skip.as_str());
    push_str(body, rename.as_str());
    push_str(body, decl.as_str());
    assert(body@ =~= b0 + (skip@ + rename@ + decl@));
}

/// Appends the lines of the `i`-th member of an `anyOf` or `oneOf` of
/// `parent`.
fn push_member_text(body: &mut String, member: &RefOr<SchemaObject>, parent: &str, i: usize, skip_none: bool)
    requires
        member_renders(*member),
    ensures
        final(body)@ == old(body)@ + member_text(*member, parent@, i as nat, skip_none),
{
    let ghost b0 = body@;
    match member {
        RefOr::Reference(reference) => {
            let last = last_piece_of(reference.as_str());
            let target = sanitize_name(last.as_str());
            push_str(body, "    ");
            push_str(body, target.as_str());
            push_str(body, "(");
            push_str(body, target.as_str());
            push_str(body, "),\n");
            assert(body@ =~= b0 + member_text(*member, parent@, i as nat, skip_none));
        },
        RefOr::Item(s) => {
            let vname = inline_variant_name(s, parent, i);
            let is_object_with_props = match &s.kind {
                SchemaForm::TypeForm(TypeForm::Object(obj)) => obj.properties.len() > 0,
                _ => false,
            };
            if is_object_with_props {
                if let SchemaForm::TypeForm(TypeForm::Object(obj)) = &s.kind {
                    push_str(body, "    ");
                    push_str(body, vname.as_str());
                    push_str(body, " {\n");
                    let ghost b1 = body@;
                    let mut j: usize = 0;
                    while j < obj.properties.len()
                        invariant
                            j <= obj.properties@.len(),
                            forall|k: int| 0 <= k < obj.properties@.len() ==> slot_renders(
                                #[trigger] obj.properties@[k].1,
                            ),
                            body@ == b1 + variant_fields_text(
                                obj.properties@.subrange(0, j as int),
                                names_of(obj.required@),
                                skip_none,
                            ),
                        decreases obj.properties@.len() - j,
                    {
                        assert(slot_renders(obj.properties@[j as int].1));
                        push_variant_field(body, &obj.properties[j].0, &obj.properties[j].1, &obj.required, skip_none);
                        assert(obj.properties@.subrange(0, j + 1).drop_last() =~= obj.properties@.subrange(0, j as int));
                        j = j + 1;
                        assert(body@ =~= b1 + variant_fields_text(
                            obj.properties@.subrange(0, j as int),
                            names_of(obj.required@),
                            skip_none,
                        ));
                    }
                    assert(obj.properties@.subrange(0, obj.properties@.len() as int) =~= obj.properties@);
                    push_str(body, "    },\n");
                    assert(body@ =~= b0 + member_text(*member, parent@, i as nat, skip_none));
                }
            } else {
                let ty = gen_property_type_for_schema_kind(&s.kind);
                push_str(body, "    ");
                push_str(body, vname.as_str());
                push_str(body, "(");
                push_str(body, ty.as_str());
                push_str(body, "),\n");
                assert(body@ =~= b0 + member_text(*member, parent@, i as nat, skip_none));
            }
        },
    }
}

/// Pushes the items for an `anyOf` or `oneOf`: the header, then an enum
/// with a variant for each member, as raw text.
fn generate_enum(
    scope: &mut codegen::Scope,
    name: &str,
    types: &Vec<RefOr<SchemaObject>>,
    description: Option<&str>,
    type_label: &str,
    derivatives: Option<&[&str]>,
    annotations_before: Option<&[(&str, Option<&[&str]>)]>,
    annotations_after: Option<&[(&str, Option<&[&str]>)]>,
    skip_none: bool,
)
    requires
        forall|j: int| 0 <= j < types@.len() ==> member_renders(#[trigger] types@[j]),
    ensures
        scope_items(*final(scope)) == scope_items(*old(scope)) + enum_items(
            name@,
            types@,
            opt_str(description),
            type_label@,
            gen_options(derivatives, annotations_before, annotations_after, None, skip_none),
        ),
        scope_imports(*final(scope)) == scope_imports(*old(scope)),
{
    let ghost items0 = scope_items(*scope);
    let ghost opts = gen_options(derivatives, annotations_before, annotations_after, None, skip_none);
    emit_header(scope, name, description, type_label, derivatives, annotations_before, annotations_after);
    let mut body = string_from("pub enum ");
    push_str(&mut body, name);
    push_str(&mut body, " {\n");
    let ghost b0 = body@;
    let mut i: usize = 0;
    while i < types.len()
        invariant
            i <= types@.len(),
            forall|j: int| 0 <= j < types@.len() ==> member_renders(#[trigger] types@[j]),
            body@ == b0 + members_text(types@, name@, i as nat, skip_none),
        decreases types@.len() - i,
    {
        assert(member_renders(types@[i as int]));
        push_member_text(&mut body, &types[i], name, i, skip_none);
        i = i + 1;
        assert(body@ =~= b0 + members_text(types@, name@, i as nat, skip_none));
    }
    push_str(&mut body, "}");
    scope_raw(scope, body.as_str());
    assert(body@ =~= enum_body(name@, types@, skip_none));
    assert(scope_items(*scope) =~= items0 + enum_items(name@, types@, opt_str(description), type_label@, opts));
}


/// The properties of an object, as names and borrowed slots.
fn object_props<'a>(props: &'a Vec<(String, RefOr<SchemaObject>)>) -> (r: Vec<(String, &'a RefOr<SchemaObject>)>)
    ensures
        props_view(r@) == props@.map_values(|p: (String, RefOr<SchemaObject>)| (p.0@, p.1)),
{
    let mut r: Vec<(String, &'a RefOr<SchemaObject>)> = Vec::new();
    let mut i: usize = 0;
    while i < props.len()
        invariant
            i <= props@.len(),
            props_view(r@) == props@.subrange(0, i as int).map_values(|p: (String, RefOr<SchemaObject>)| (p.0@, p.1)),
        decreases props@.len() - i,
    {
        let ghost r0 = r@;
        r.push((props[i].0.clone(), &props[i].1));
        assert(props_view(r@) =~= props_view(r0).push((props@[i as int].0@, props@[i as int].1)));
        i = i + 1;
        assert(props@.subrange(0, i as int).map_values(|p: (String, RefOr<SchemaObject>)| (p.0@, p.1))
            =~= props@.subrange(0, i - 1).map_values(|p: (String, RefOr<SchemaObject>)| (p.0@, p.1)).push(
            (props@[i - 1].0@, props@[i - 1].1),
        ));
    }
    assert(props@.subrange(0, props@.len() as int) =~= props@);
    r
}

/// Pushes the items for a schema that is a type: a struct for an object, an
/// enum for a string enum, a type alias for anything else.
fn generate_struct(
    scope: &mut codegen::Scope,
    name: &str,
    t: &TypeForm,
    schemas: &SchemaMap,
    description: Option<&str>,
    type_label: &str,
    derivatives: Option<&[&str]>,
    annotations_before: Option<&[(&str, Option<&[&str]>)]>,
    annotations_after: Option<&[(&str, Option<&[&str]>)]>,
    field_annotations: Option<&[(&str, &str, &str)]>,
    skip_none: bool,
)
    requires
        schemas.wf(),
        match *t {
            TypeForm::Object(o) => forall|j: int|
                0 <= j < o.properties@.len() ==> slot_renders(#[trigger] o.properties@[j].1),
            _ => type_renders(*t),
        },
    ensures
        scope_items(*final(scope)) == scope_items(*old(scope)) + type_items(
            name@,
            *t,
            schemas@,
            opt_str(description),
            type_label@,
            gen_options(derivatives, annotations_before, annotations_after, field_annotations, skip_none),
        ),
        scope_imports(*final(scope)) == scope_imports(*old(scope)),
{
    let ghost items0 = scope_items(*scope);
    let ghost opts = gen_options(derivatives, annotations_before, annotations_after, field_annotations, skip_none);
    match t {
        TypeForm::Object(obj) => {
            let props = object_props(&obj.properties);
            proof {
                let pv = props_view(props@);
                assert forall|i: int| 0 <= i < pv.len() implies slot_renders(#[trigger] pv[i].1) by {
                    assert(pv[i].1 == obj.properties@[i].1);
                }
            }
            emit_object(
                scope,
                name,
                &props,
                &obj.required,
                schemas,
                description,
                type_label,
                derivatives,
                annotations_before,
                annotations_after,
                field_annotations,
                skip_none,
            );
        },
        TypeForm::String(s) if s.enumeration.len() > 0 => {
            generate_string_enum(
                scope,
                name,
                s,
                description,
                type_label,
                derivatives,
                annotations_before,
                annotations_after,
            );
        },
        _ => {
            emit_doc(scope, description, type_label);
            let ty = gen_type_name_for_type(t);
            let mut line = string_from("pub type ");
            push_str(&mut line, name);
            push_str(&mut line, " = ");
            push_str(&mut line, ty.as_str());
            push_str(&mut line, ";");
            scope_raw(scope, line.as_str());
            assert(scope_items(*scope) =~= items0 + alias_items(name@, *t, opt_str(description), type_label@));
        },
    }
}

/// Pushes the items for the schema `name` of the map.
fn generate_for_schema(
    scope: &mut codegen::Scope,
    name: &str,
    schemas: &SchemaMap,
    derivatives: Option<&[&str]>,
    annotations_before: Option<&[(&str, Option<&[&str]>)]>,
    annotations_after: Option<&[(&str, Option<&[&str]>)]>,
    field_annotations: Option<&[(&str, &str, &str)]>,
    skip_none: bool,
)
    requires
        schemas.wf(),
        schemas@.contains_key(name@),
        schema_renders(name@, schemas@),
    ensures
        scope_items(*final(scope)) == scope_items(*old(scope)) + schema_items(
            name@,
            schemas@,
            gen_options(derivatives, annotations_before, annotations_after, field_annotations, skip_none),
        ),
        scope_imports(*final(scope)) == scope_imports(*old(scope)),
{
    let ghost items0 = scope_items(*scope);
    let ghost opts = gen_options(derivatives, annotations_before, annotations_after, field_annotations, skip_none);
    let schema = schemas.get(name).unwrap();
    let safe = sanitize_name(name);
    let description = description_of(schema);
    let label = schema_kind_label(&schema.kind);
    match &schema.kind {
        SchemaForm::TypeForm(t) => {
            generate_struct(
                scope,
                safe.as_str(),
                t,
                schemas,
                description,
                label,
                derivatives,
                annotations_before,
                annotations_after,
                field_annotations,
                skip_none,
            );
        },
        SchemaForm::OneOf(one_of) => {
            generate_enum(
                scope,
                safe.as_str(),
                one_of,
                description,
                label,
                derivatives,
                annotations_before,
                annotations_after,
                skip_none,
            );
        },
        SchemaForm::AnyOf(any_of) => {
            generate_enum(
                scope,
                safe.as_str(),
                any_of,
                description,
                label,
                derivatives,
                annotations_before,
                annotations_after,
                skip_none,
            );
        },
        SchemaForm::AllOf(_) => {
            let (props, required) = resolve_all_of(name, schemas);
            emit_object(
                scope,
                safe.as_str(),
                &props,
                &required,
                schemas,
                description,
                label,
                derivatives,
                annotations_before,
                annotations_after,
                field_annotations,
                skip_none,
            );
        },
        _ => {
            assert(scope_items(*scope) =~= items0 + schema_items(name@, schemas@, opts));
        },
    }
}

/// The names of the schemas of a map, in ascending order.
pub open spec fn schema_names(schemas: SchemaMap) -> Seq<Seq<char>> {
    schemas.entries().map_values(|e: (String, SchemaObject)| e.0@)
}

/// Writes Rust source for the schemas of the map, in ascending order of
/// their names, after the imports asked for: a struct for each object and
/// `allOf`, an enum for each string enum and `oneOf`/`anyOf`, a type alias
/// for any other type (`not` and untyped schemas write nothing). Each type
/// has a doc comment with its description and kind, derives `Debug` and the
/// derivatives, and carries the annotations asked for before and after the
/// derive line unless it is among their exceptions; each field carries the
/// annotations mapped for the type of its schema, the skip annotation where
/// it is optional and `skip_none` is set, and a rename where its Rust name
/// differs from the property name.
pub fn generate(
    schemas: SchemaMap,
    derivatives: Option<&[&str]>,
    imports: Option<&[(&str, &str)]>,
    annotations_before: Option<&[(&str, Option<&[&str]>)]>,
    annotations_after: Option<&[(&str, Option<&[&str]>)]>,
    field_annotations: Option<&[(&str, &str, &str)]>,
    skip_none: bool,
) -> (r: String)
    requires
        schemas.wf(),
        map_renders(schemas@),
    ensures
        r@ == rendered(
            imports_added(Seq::empty(), imports_view(imports)),
            map_items(
                schema_names(schemas),
                schemas@,
                gen_options(derivatives, annotations_before, annotations_after, field_annotations, skip_none),
            ),
        ),
        forall|t: Seq<char>|
            #[trigger] map_items(
                schema_names(schemas),
                schemas@,
                gen_options(derivatives, annotations_before, annotations_after, field_annotations, skip_none),
            ).contains(CodeItem::Raw(t)) && one_line(t) ==> contains_text(r@, t),
        forall|a: Seq<char>|
            #[trigger] annotated(
                map_items(
                    schema_names(schemas),
                    schemas@,
                    gen_options(derivatives, annotations_before, annotations_after, field_annotations, skip_none),
                ),
                a,
            ) && one_line(a) ==> contains_text(r@, a),
{
    let ghost opts = gen_options(derivatives, annotations_before, annotations_after, field_annotations, skip_none);
    let mut scope = scope_new();
    if let Some(imports) = imports {
        let ghost iv = imports_view(Some(imports));
        let mut i: usize = 0;
        while i < imports.len()
            invariant
                i <= imports@.len(),
                iv == imports_view(Some(imports)),
                iv.len() == imports@.len(),
                scope_items(scope) == Seq::<CodeItem>::empty(),
                scope_imports(scope) == imports_added(Seq::empty(), iv.subrange(0, i as int)),
            decreases imports@.len() - i,
        {
            let (path, name) = imports[i];
            scope_import(&mut scope, path, name);
            assert(iv.subrange(0, i + 1).drop_last() =~= iv.subrange(0, i as int));
            i = i + 1;
        }
        assert(iv.subrange(0, imports@.len() as int) =~= iv);
    } else {
        assert(imports_view(imports) =~= Seq::<(Seq<char>, Seq<char>)>::empty());
    }
    let ghost imps = scope_imports(scope);
    let names = schemas.keys();
    proof {
        schemas.lemma_entries();
    }
    let mut i: usize = 0;
    while i < names.len()
        invariant
            i <= names@.len(),
            names@.len() == schemas.entries().len(),
            forall|j: int| 0 <= j < names@.len() ==> #[trigger] names@[j] == schemas.entries()[j].0,
            schemas.wf(),
            map_renders(schemas@),
            forall|j: int|
                0 <= j < schemas.entries().len() ==> #[trigger] schemas@.contains_key(schemas.entries()[j].0@),
            scope_imports(scope) == imps,
            opts == gen_options(derivatives, annotations_before, annotations_after, field_annotations, skip_none),
            scope_items(scope) == map_items(schema_names(schemas).subrange(0, i as int), schemas@, opts),
        decreases names@.len() - i,
    {
        assert(schemas@.contains_key(schemas.entries()[i as int].0@));
        generate_for_schema(
            &mut scope,
            names[i].as_str(),
            &schemas,
            derivatives,
            annotations_before,
            annotations_after,
            field_annotations,
            skip_none,
        );
        assert(schema_names(schemas).subrange(0, i + 1).drop_last() =~= schema_names(schemas).subrange(0, i as int));
        assert(schema_names(schemas).subrange(0, i + 1).last() == names@[i as int]@);
        i = i + 1;
    }
    assert(schema_names(schemas).subrange(0, names@.len() as int) =~= schema_names(schemas));
    scope_to_string(&scope)
}


/// Whether every property's type can be written.
fn check_props_render(props: &Vec<(String, &RefOr<SchemaObject>)>) -> (b: bool)
    ensures
        b == props_render(props_view(props@)),
{
    let mut i: usize = 0;
    while i < props.len()
        invariant
            i <= props@.len(),
            forall|j: int| 0 <= j < i ==> slot_renders(#[trigger] props_view(props@)[j].1),
        decreases props@.len() - i,
    {
        if !check_slot_renders(props[i].1) {
            assert(!slot_renders(props_view(props@)[i as int].1));
            return false;
        }
        i = i + 1;
    }
    true
}

/// Whether every property's type, in `props`, can be written.
fn check_own_props_render(props: &Vec<(String, RefOr<SchemaObject>)>) -> (b: bool)
    ensures
        b == forall|j: int| 0 <= j < props@.len() ==> slot_renders(#[trigger] props@[j].1),
{
    let mut i: usize = 0;
    while i < props.len()
        invariant
            i <= props@.len(),
            forall|j: int| 0 <= j < i ==> slot_renders(#[trigger] props@[j].1),
        decreases props@.len() - i,
    {
        if !check_slot_renders(&props[i].1) {
            return false;
        }
        i = i + 1;
    }
    true
}

/// Whether what the members of an `anyOf` or `oneOf` need written can be
/// written.
fn check_members_render(ms: &Vec<RefOr<SchemaObject>>) -> (b: bool)
    ensures
        b == forall|j: int| 0 <= j < ms@.len() ==> member_renders(#[trigger] ms@[j]),
{
    let mut i: usize = 0;
    while i < ms.len()
        invariant
            i <= ms@.len(),
            forall|j: int| 0 <= j < i ==> member_renders(#[trigger] ms@[j]),
        decreases ms@.len() - i,
    {
        let ok = match &ms[i] {
            RefOr::Reference(_) => true,
            RefOr::Item(s) => match &s.kind {
                SchemaForm::TypeForm(TypeForm::Object(o)) => if o.properties.len() > 0 {
                    check_own_props_render(&o.properties)
                } else {
                    true
                },
                _ => check_kind_renders(&s.kind),
            },
        };
        if !ok {
            return false;
        }
        i = i + 1;
    }
    true
}

/// Whether everything written for the schema `name` of the map can be
/// written.
fn check_schema_renders(name: &str, schemas: &SchemaMap) -> (b: bool)
    requires
        schemas.wf(),
        schemas@.contains_key(name@),
    ensures
        b == schema_renders(name@, schemas@),
{
    let schema = schemas.get(name).unwrap();
    match &schema.kind {
        SchemaForm::TypeForm(TypeForm::Object(o)) => check_own_props_render(&o.properties),
        SchemaForm::TypeForm(t) => check_type_renders(t),
        SchemaForm::OneOf(ms) => check_members_render(ms),
        SchemaForm::AnyOf(ms) => check_members_render(ms),
        SchemaForm::AllOf(_) => {
            let (props, _required) = resolve_all_of(name, schemas);
            check_props_render(&props)
        },
        _ => true,
    }
}

/// Whether `generate` can take the map: whether every reference that it
/// follows to write a type is one to a component schema, and every array
/// whose type it writes has items.
pub fn can_generate(schemas: &SchemaMap) -> (b: bool)
    requires
        schemas.wf(),
    ensures
        b == map_renders(schemas@),
{
    let names = schemas.keys();
    proof {
        schemas.lemma_entries();
    }
    let mut i: usize = 0;
    while i < names.len()
        invariant
            i <= names@.len(),
            names@.len() == schemas.entries().len(),
            forall|j: int| 0 <= j < names@.len() ==> #[trigger] names@[j] == schemas.entries()[j].0,
            schemas.wf(),
            forall|j: int|
                0 <= j < schemas.entries().len() ==> #[trigger] schemas@.contains_key(schemas.entries()[j].0@),
            forall|k: Seq<char>| #[trigger] schemas@.contains_key(k) ==> exists|j: int|
                0 <= j < schemas.entries().len() && #[trigger] schemas.entries()[j].0@ == k,
            forall|j: int| 0 <= j < i ==> schema_renders(#[trigger] schemas.entries()[j].0@, schemas@),
        decreases names@.len() - i,
    {
        assert(schemas@.contains_key(schemas.entries()[i as int].0@));
        if !check_schema_renders(names[i].as_str(), schemas) {
            return false;
        }
        i = i + 1;
    }
    proof {
        assert forall|k: Seq<char>| #[trigger] schemas@.contains_key(k) implies schema_renders(k, schemas@) by {
            let j = choose|j: int| 0 <= j < schemas.entries().len() && #[trigger] schemas.entries()[j].0@ == k;
        }
    }
    true
}


/// The groups of imports hold each path once, and each type once within
/// the group of its path.
pub open spec fn imports_grouped(r: Seq<(Seq<char>, Seq<Seq<char>>)>) -> bool {
    &&& forall|i: int, j: int| 0 <= i < j < r.len() ==> #[trigger] r[i].0 != #[trigger] r[j].0
    &&& forall|i: int, a: int, b: int|
        0 <= i < r.len() && 0 <= a < b < r[i].1.len() ==> #[trigger] r[i].1[a] != #[trigger] r[i].1[b]
}

/// The type `t` stands in the group of `path`.
pub open spec fn imported(r: Seq<(Seq<char>, Seq<Seq<char>>)>, path: Seq<char>, t: Seq<char>) -> bool {
    exists|j: int| 0 <= j < r.len() && r[j].0 == path && #[trigger] r[j].1.contains(t)
}

/// Imports are written grouped by path: each path once, each type once
/// within the group of its path, and the head of every imported type in the
/// group of its path.
pub proof fn lemma_imports_distinct(imports: Seq<(Seq<char>, Seq<char>)>)
    ensures
        imports_grouped(imports_added(Seq::empty(), imports)),
        forall|i: int|
            0 <= i < imports.len() ==> imported(
                imports_added(Seq::empty(), imports),
                #[trigger] imports[i].0,
                type_head(imports[i].1),
            ),
    decreases imports.len(),
{
    if imports.len() > 0 {
        let prev = imports.drop_last();
        lemma_imports_distinct(prev);
        let r0 = imports_added(Seq::empty(), prev);
        let r = imports_added(Seq::empty(), imports);
        let path = imports.last().0;
        let h = type_head(imports.last().1);
        lemma_group_index(r0, path);
        let g = group_index(r0, path);
        assert(r == import_added(r0, path, imports.last().1));
        if g < 0 {
            assert(r == r0.push((path, seq![h])));
            assert forall|i: int, j: int| 0 <= i < j < r.len() implies #[trigger] r[i].0 != #[trigger] r[j].0 by {
                if j == r.len() - 1 {
                    assert(r[i] == r0[i]);
                } else {
                    assert(r[i] == r0[i] && r[j] == r0[j]);
                }
            }
            assert forall|i: int, x: int, y: int|
                0 <= i < r.len() && 0 <= x < y < r[i].1.len() implies #[trigger] r[i].1[x] != #[trigger] r[i].1[y] by {
                if i < r0.len() {
                    assert(r[i] == r0[i]);
                }
            }
            assert(r[r.len() - 1].1.contains(h)) by {
                assert(r[r.len() - 1].1[0] == h);
            }
        } else if r0[g].1.contains(h) {
            assert(r == r0);
        } else {
            let grp = r0[g].1.push(h);
            assert(r == r0.update(g, (path, grp)));
            assert forall|i: int, j: int| 0 <= i < j < r.len() implies #[trigger] r[i].0 != #[trigger] r[j].0 by {
                assert(r0[i].0 != r0[j].0);
            }
            assert forall|i: int, x: int, y: int|
                0 <= i < r.len() && 0 <= x < y < r[i].1.len() implies #[trigger] r[i].1[x] != #[trigger] r[i].1[y] by {
                if i == g {
                    if y == grp.len() - 1 {
                        assert(grp[x] == r0[g].1[x]);
                        assert(r0[g].1.contains(grp[x]));
                    } else {
                        assert(grp[x] == r0[g].1[x] && grp[y] == r0[g].1[y]);
                        assert(r0[i].1[x] != r0[i].1[y]);
                    }
                } else {
                    assert(r0[i].1[x] != r0[i].1[y]);
                }
            }
            assert(r[g].1[grp.len() - 1] == h);
        }
        assert(imported(r, path, h)) by {
            if g < 0 {
                assert(r[r.len() - 1].1.contains(h));
            } else {
                if r0[g].1.contains(h) {
                    assert(r[g].1.contains(h));
                } else {
                    assert(r[g].1[r[g].1.len() - 1] == h);
                    assert(r[g].1.contains(h));
                }
            }
        }
        assert forall|i: int| 0 <= i < imports.len() implies imported(r, #[trigger] imports[i].0, type_head(imports[i].1)) by {
            if i < prev.len() {
                assert(prev[i] == imports[i]);
                assert(imported(r0, prev[i].0, type_head(prev[i].1)));
                let t = type_head(prev[i].1);
                let j = choose|j: int| 0 <= j < r0.len() && r0[j].0 == prev[i].0 && #[trigger] r0[j].1.contains(t);
                let k = choose|k: int| 0 <= k < r0[j].1.len() && r0[j].1[k] == t;
                if g < 0 {
                    assert(r[j] == r0[j]);
                } else if !r0[g].1.contains(h) && j == g {
                    assert(r[j].1[k] == t);
                } else {
                    assert(r[j] == r0[j]);
                }
                assert(r[j].1.contains(t));
            }
        }
    }
}

/// An annotation is written for a type exactly when the type is not among
/// its exceptions: each one not excepted is written, and each written line
/// is one not excepted.
pub proof fn lemma_annotation_exceptions(anns: Seq<(Seq<char>, Option<Seq<Seq<char>>>)>, name: Seq<char>)
    ensures
        forall|i: int|
            0 <= i < anns.len() && !excepted(#[trigger] anns[i].1, name) ==> annotation_items(
                anns,
                name,
            ).contains(CodeItem::Raw(anns[i].0)),
        forall|k: int|
            0 <= k < annotation_items(anns, name).len() ==> exists|i: int|
                0 <= i < anns.len() && !excepted(anns[i].1, name) && #[trigger] annotation_items(
                    anns,
                    name,
                )[k] == CodeItem::Raw(anns[i].0),
    decreases anns.len(),
{
    if anns.len() > 0 {
        let prev = anns.drop_last();
        lemma_annotation_exceptions(prev, name);
        let r0 = annotation_items(prev, name);
        let r = annotation_items(anns, name);
        assert forall|i: int| 0 <= i < anns.len() && !excepted(#[trigger] anns[i].1, name) implies r.contains(
            CodeItem::Raw(anns[i].0),
        ) by {
            if i < prev.len() {
                assert(prev[i] == anns[i]);
                assert(r0.contains(CodeItem::Raw(prev[i].0)));
                let k = choose|k: int| 0 <= k < r0.len() && r0[k] == CodeItem::Raw(prev[i].0);
                assert(r[k] == r0[k]);
            } else {
                assert(r[r.len() - 1] == CodeItem::Raw(anns[i].0));
            }
        }
        assert forall|k: int| 0 <= k < r.len() implies exists|i: int|
            0 <= i < anns.len() && !excepted(anns[i].1, name) && #[trigger] r[k] == CodeItem::Raw(
                anns[i].0,
            ) by {
            if k < r0.len() {
                assert(r[k] == r0[k]);
                let i = choose|i: int|
                    0 <= i < prev.len() && !excepted(prev[i].1, name) && #[trigger] r0[k] == CodeItem::Raw(
                        prev[i].0,
                    );
                assert(prev[i] == anns[i]);
            } else {
                assert(r[k] == CodeItem::Raw(anns[anns.len() - 1].0));
            }
        }
    }
}

/// `x` is the annotation that the mapping `mapping` gives for `key`.
pub open spec fn maps_to(mapping: (Seq<char>, Seq<char>, Seq<char>), key: Seq<char>, optional: bool, x: Seq<char>) -> bool {
    mapping.0 == key && x == (if optional {
        mapping.2
    } else {
        mapping.1
    })
}

/// The field annotations mapped for a key are the annotation for an
/// optional or a required field of each mapping of that key, and only
/// those.
pub proof fn lemma_mapped_annotations(maps: Seq<(Seq<char>, Seq<char>, Seq<char>)>, key: Seq<char>, optional: bool)
    ensures
        forall|i: int|
            0 <= i < maps.len() && #[trigger] maps[i].0 == key ==> mapped_annotations(
                maps,
                key,
                optional,
            ).contains(
                if optional {
                    maps[i].2
                } else {
                    maps[i].1
                },
            ),
        forall|k: int|
            #![trigger mapped_annotations(maps, key, optional)[k]]
            0 <= k < mapped_annotations(maps, key, optional).len() ==> exists|i: int|
                0 <= i < maps.len() && maps_to(
                    #[trigger] maps[i],
                    key,
                    optional,
                    mapped_annotations(maps, key, optional)[k],
                ),
    decreases maps.len(),
{
    if maps.len() > 0 {
        let prev = maps.drop_last();
        lemma_mapped_annotations(prev, key, optional);
        let r0 = mapped_annotations(prev, key, optional);
        let r = mapped_annotations(maps, key, optional);
        assert forall|i: int| 0 <= i < maps.len() && #[trigger] maps[i].0 == key implies r.contains(
            if optional {
                maps[i].2
            } else {
                maps[i].1
            },
        ) by {
            if i < prev.len() {
                assert(prev[i] == maps[i]);
                let x = if optional {
                    prev[i].2
                } else {
                    prev[i].1
                };
                assert(r0.contains(x));
                let k = choose|k: int| 0 <= k < r0.len() && r0[k] == x;
                assert(r[k] == r0[k]);
            } else {
                assert(r[r.len() - 1] == (if optional {
                    maps[i].2
                } else {
                    maps[i].1
                }));
            }
        }
        assert forall|k: int| #![trigger r[k]] 0 <= k < r.len() implies exists|i: int|
            0 <= i < maps.len() && maps_to(#[trigger] maps[i], key, optional, r[k]) by {
            if k < r0.len() {
                assert(r[k] == r0[k]);
                let i = choose|i: int| 0 <= i < prev.len() && maps_to(#[trigger] prev[i], key, optional, r0[k]);
                assert(prev[i] == maps[i]);
                assert(maps_to(maps[i], key, optional, r[k]));
            } else {
                let i = maps.len() - 1;
                assert(maps_to(maps[i], key, optional, r[k]));
            }
        }
    }
}

/// The skip annotation is on every optional field when asked for, and on
/// no field (beyond what the mappings give) when not; a rename is on every
/// field whose Rust name differs from its property name.
pub proof fn lemma_field_annotations(
    pname: Seq<char>,
    slot: RefOr<SchemaObject>,
    required: bool,
    m: Map<Seq<char>, SchemaObject>,
    maps: Seq<(Seq<char>, Seq<char>, Seq<char>)>,
    skip_none: bool,
)
    ensures
        skip_none && slot_optional(slot, required) ==> field_annotations_of(
            pname,
            slot,
            required,
            m,
            maps,
            skip_none,
        ).contains(skip_none_line()),
        field_name(pname) != pname ==> field_annotations_of(pname, slot, required, m, maps, skip_none).contains(
            rename_line(pname),
        ),
        !(skip_none && slot_optional(slot, required)) ==> field_annotations_of(
            pname,
            slot,
            required,
            m,
            maps,
            skip_none,
        ) == field_annotations_of(pname, slot, required, m, maps, false),
{
    let a = field_annotations_of(pname, slot, required, m, maps, skip_none);
    if field_name(pname) != pname {
        assert(a[a.len() - 1] == rename_line(pname));
    }
    if skip_none && slot_optional(slot, required) {
        let optional = slot_optional(slot, required);
        let mapped = match prop_type_key(slot, m) {
            Some(k) => mapped_annotations(maps, k, optional),
            None => Seq::<Seq<char>>::empty(),
        };
        assert(a[mapped.len() as int] == skip_none_line());
    }
}

/// Every object schema of the map is written as a public struct under its
/// sanitized name, with a field for each property, in order: named `pub`
/// and the property's Rust name, and typed by the property's schema.
pub proof fn lemma_object_schema_struct(name: Seq<char>, m: Map<Seq<char>, SchemaObject>, opts: GenOptions)
    requires
        m.contains_key(name),
        m[name].kind is TypeForm,
        m[name].kind->TypeForm_0 is Object,
    ensures
        ({
            let o = m[name].kind->TypeForm_0->Object_0;
            let items = schema_items(name, m, opts);
            &&& items.len() > 0
            &&& items.last() matches CodeItem::Struct(st) && st.name == sanitized(name) && st.vis == Some(
                "pub"@,
            ) && st.fields.len() == o.properties@.len() && forall|i: int|
                0 <= i < st.fields.len() ==> (#[trigger] st.fields[i]).name == "pub "@ + field_name(
                    o.properties@[i].0@,
                ) && st.fields[i].ty == slot_type_name(
                    o.properties@[i].1,
                    names_of(o.required@).contains(o.properties@[i].0@),
                )
        }),
{
}


/// The items of the `p`-th named schema stand, in order, among the items
/// of all, from position `off` on.
proof fn lemma_map_items_part(names: Seq<Seq<char>>, m: Map<Seq<char>, SchemaObject>, opts: GenOptions, p: int) -> (off: int)
    requires
        0 <= p < names.len(),
    ensures
        0 <= off,
        off + schema_items(names[p], m, opts).len() <= map_items(names, m, opts).len(),
        forall|q: int|
            0 <= q < schema_items(names[p], m, opts).len() ==> #[trigger] map_items(names, m, opts)[off + q]
                == schema_items(names[p], m, opts)[q],
    decreases names.len(),
{
    let prev = names.drop_last();
    let whole = map_items(names, m, opts);
    let part = schema_items(names[p], m, opts);
    if p == names.len() - 1 {
        let off = map_items(prev, m, opts).len() as int;
        assert forall|q: int| 0 <= q < part.len() implies #[trigger] whole[off + q] == part[q] by {}
        off
    } else {
        let off = lemma_map_items_part(prev, m, opts, p);
        assert(prev[p] == names[p]);
        assert forall|q: int| 0 <= q < part.len() implies #[trigger] whole[off + q] == part[q] by {
            assert(map_items(prev, m, opts)[off + q] == part[q]);
        }
        off
    }
}

/// When the skip annotation is asked for, it is written: every optional
/// property of an object schema gets it, and it stands in the generated
/// source (see the contract of `generate`).
pub proof fn lemma_optional_field_skipped(schemas: SchemaMap, opts: GenOptions, name: Seq<char>, j: int)
    requires
        schemas.wf(),
        opts.skip_none,
        schemas@.contains_key(name),
        schemas@[name].kind is TypeForm,
        schemas@[name].kind->TypeForm_0 is Object,
        0 <= j < schemas@[name].kind->TypeForm_0->Object_0.properties@.len(),
        ({
            let o = schemas@[name].kind->TypeForm_0->Object_0;
            slot_optional(o.properties@[j].1, names_of(o.required@).contains(o.properties@[j].0@))
        }),
    ensures
        annotated(map_items(schema_names(schemas), schemas@, opts), skip_none_line()),
        one_line(skip_none_line()),
{
    let m = schemas@;
    let o = m[name].kind->TypeForm_0->Object_0;
    let pv = o.properties@.map_values(|p: (String, RefOr<SchemaObject>)| (p.0@, p.1));
    let rv = names_of(o.required@);
    schemas.lemma_entries();
    let p = choose|p: int| 0 <= p < schemas.entries().len() && #[trigger] schemas.entries()[p].0@ == name;
    let names = schema_names(schemas);
    assert(names[p] == name);
    let off = lemma_map_items_part(names, m, opts, p);
    let part = schema_items(name, m, opts);
    let whole = map_items(names, m, opts);
    let last = part.len() - 1;
    assert(whole[off + last] == part[last]);
    let fields = fields_of(pv, rv, m, opts.field_annotations, opts.skip_none);
    assert(part[last] == CodeItem::Struct(
        StructDef { name: sanitized(name), vis: Some("pub"@), fields },
    ));
    let f = fields[j];
    assert(f == field_of(pv[j].0, pv[j].1, rv, m, opts.field_annotations, opts.skip_none));
    let required = rv.contains(pv[j].0);
    lemma_field_annotations(pv[j].0, pv[j].1, required, m, opts.field_annotations, opts.skip_none);
    assert(f.annotations.contains(skip_none_line()));
    assert(whole[off + last]->Struct_0.fields[j].annotations.contains(skip_none_line()));
    assert(annotated(whole, skip_none_line()));
    reveal_strlit("#[serde(skip_serializing_if = \"Option::is_none\")]");
    assert(!skip_none_line().contains('\n'));
    assert(!skip_none_line().contains('\r'));
}


/// An annotation asked for before or after the derive line is written for
/// every object schema whose Rust name is not among its exceptions.
pub proof fn lemma_annotation_written(schemas: SchemaMap, opts: GenOptions, name: Seq<char>, i: int, before: bool)
    requires
        schemas.wf(),
        schemas@.contains_key(name),
        schemas@[name].kind is TypeForm,
        schemas@[name].kind->TypeForm_0 is Object,
        0 <= i < (if before {
            opts.before
        } else {
            opts.after
        }).len(),
        !excepted(
            (if before {
                opts.before
            } else {
                opts.after
            })[i].1,
            sanitized(name),
        ),
    ensures
        map_items(schema_names(schemas), schemas@, opts).contains(
            CodeItem::Raw(
                (if before {
                    opts.before
                } else {
                    opts.after
                })[i].0,
            ),
        ),
{
    let m = schemas@;
    let anns = if before {
        opts.before
    } else {
        opts.after
    };
    let safe = sanitized(name);
    let desc = opt_string(m[name].description);
    let label = kind_label(m[name].kind);
    schemas.lemma_entries();
    let p = choose|p: int| 0 <= p < schemas.entries().len() && #[trigger] schemas.entries()[p].0@ == name;
    let names = schema_names(schemas);
    assert(names[p] == name);
    let off = lemma_map_items_part(names, m, opts, p);
    let part = schema_items(name, m, opts);
    let whole = map_items(names, m, opts);
    lemma_annotation_exceptions(anns, safe);
    let ai = annotation_items(anns, safe);
    assert(ai.contains(CodeItem::Raw(anns[i].0)));
    let k = choose|k: int| 0 <= k < ai.len() && ai[k] == CodeItem::Raw(anns[i].0);
    let header = header_items(safe, desc, label, opts.derivatives, opts.before, opts.after);
    let d = doc_items(desc, label);
    let bi = annotation_items(opts.before, safe);
    let q = if before {
        d.len() + k
    } else {
        d.len() + bi.len() + 1 + k
    };
    assert(header[q] == ai[k]);
    assert(part[q] == header[q]);
    assert(whole[off + q] == part[q]);
}


proof fn lemma_contains_in(a: Seq<char>, b: Seq<char>, c: Seq<char>, n: Seq<char>)
    requires
        contains_text(b, n),
    ensures
        contains_text(a + b + c, n),
{
    let i = choose|i: int| 0 <= i && i + n.len() <= b.len() && #[trigger] b.subrange(i, i + n.len()) == n;
    let h = a + b + c;
    assert(h.subrange(a.len() + i, a.len() + i + n.len()) =~= b.subrange(i, i + n.len()));
}

proof fn lemma_contains_self(n: Seq<char>)
    ensures
        contains_text(n, n),
{
    assert(n.subrange(0, 0 + n.len() as int) =~= n);
}

/// The lines of the fields of a variant hold the lines of each field.
proof fn lemma_variant_fields_hold(
    props: Seq<(String, RefOr<SchemaObject>)>,
    required_names: Seq<Seq<char>>,
    skip_none: bool,
    k: int,
)
    requires
        0 <= k < props.len(),
    ensures
        contains_text(
            variant_fields_text(props, required_names, skip_none),
            variant_field_text(props[k].0@, props[k].1, required_names, skip_none),
        ),
    decreases props.len(),
{
    let last = variant_field_text(props.last().0@, props.last().1, required_names, skip_none);
    let rest = variant_fields_text(props.drop_last(), required_names, skip_none);
    if k == props.len() - 1 {
        lemma_contains_self(last);
        lemma_contains_in(rest, last, Seq::empty(), last);
        assert(rest + last + Seq::<char>::empty() =~= rest + last);
    } else {
        lemma_variant_fields_hold(props.drop_last(), required_names, skip_none, k);
        assert(props.drop_last()[k] == props[k]);
        lemma_contains_in(Seq::empty(), rest, last, variant_field_text(props[k].0@, props[k].1, required_names, skip_none));
        assert(Seq::<char>::empty() + rest + last =~= rest + last);
    }
}

/// The lines of the first `n` members hold the lines of each of them.
proof fn lemma_members_hold(ms: Seq<RefOr<SchemaObject>>, parent: Seq<char>, n: nat, skip_none: bool, j: int)
    requires
        0 <= j < n,
    ensures
        contains_text(members_text(ms, parent, n, skip_none), member_text(ms[j], parent, j as nat, skip_none)),
    decreases n,
{
    let last = member_text(ms[n - 1], parent, (n - 1) as nat, skip_none);
    let rest = members_text(ms, parent, (n - 1) as nat, skip_none);
    let target = member_text(ms[j], parent, j as nat, skip_none);
    if j == n - 1 {
        lemma_contains_self(last);
        lemma_contains_in(rest, last, Seq::empty(), last);
        assert(rest + last + Seq::<char>::empty() =~= rest + last);
    } else {
        lemma_members_hold(ms, parent, (n - 1) as nat, skip_none, j);
        lemma_contains_in(Seq::empty(), rest, last, target);
        assert(Seq::<char>::empty() + rest + last =~= rest + last);
    }
}

/// The members of a `oneOf` or `anyOf` (none for another kind).
pub open spec fn enum_members(k: SchemaForm) -> Seq<RefOr<SchemaObject>> {
    match k {
        SchemaForm::OneOf(ms) => ms@,
        SchemaForm::AnyOf(ms) => ms@,
        _ => Seq::empty(),
    }
}

proof fn lemma_contains_trans(h: Seq<char>, mid: Seq<char>, n: Seq<char>)
    requires
        contains_text(h, mid),
        contains_text(mid, n),
    ensures
        contains_text(h, n),
{
    let i1 = choose|i: int| 0 <= i && i + mid.len() <= h.len() && #[trigger] h.subrange(i, i + mid.len()) == mid;
    let i2 = choose|i: int| 0 <= i && i + n.len() <= mid.len() && #[trigger] mid.subrange(i, i + n.len()) == n;
    assert(h.subrange(i1 + i2, i1 + i2 + n.len()) =~= mid.subrange(i2, i2 + n.len()));
}

/// The text of the `k`-th field of the member object `member`.
pub open spec fn member_field_text(member: RefOr<SchemaObject>, k: int, skip_none: bool) -> Seq<char> {
    let o = member->Item_0.kind->TypeForm_0->Object_0;
    variant_field_text(o.properties@[k].0@, o.properties@[k].1, names_of(o.required@), skip_none)
}

proof fn lemma_member_holds(member: RefOr<SchemaObject>, parent: Seq<char>, i: nat, skip_none: bool, k: int, needle: Seq<char>)
    requires
        member is Item,
        member->Item_0.kind is TypeForm,
        member->Item_0.kind->TypeForm_0 is Object,
        0 <= k < member->Item_0.kind->TypeForm_0->Object_0.properties@.len(),
        contains_text(member_field_text(member, k, skip_none), needle),
    ensures
        contains_text(member_text(member, parent, i, skip_none), needle),
{
    let s = member->Item_0;
    let o = s.kind->TypeForm_0->Object_0;
    let props = o.properties@;
    let req = names_of(o.required@);
    lemma_variant_fields_hold(props, req, skip_none, k);
    let fields = variant_fields_text(props, req, skip_none);
    lemma_contains_trans(fields, member_field_text(member, k, skip_none), needle);
    let vname = inline_name(s, parent, i);
    assert(member_text(member, parent, i, skip_none) == "    "@ + vname + " {\n"@ + fields + "    },\n"@);
    lemma_contains_in("    "@ + vname + " {\n"@, fields, "    },\n"@, needle);
}

/// The enum written for the `oneOf` or `anyOf` `name` holds the text of the
/// fields of its member objects.
proof fn lemma_enum_holds(name: Seq<char>, m: Map<Seq<char>, SchemaObject>, opts: GenOptions, j: int, k: int, needle: Seq<char>)
    requires
        m.contains_key(name),
        m[name].kind is OneOf || m[name].kind is AnyOf,
        0 <= j < enum_members(m[name].kind).len(),
        enum_members(m[name].kind)[j] is Item,
        enum_members(m[name].kind)[j]->Item_0.kind is TypeForm,
        enum_members(m[name].kind)[j]->Item_0.kind->TypeForm_0 is Object,
        0 <= k < enum_members(m[name].kind)[j]->Item_0.kind->TypeForm_0->Object_0.properties@.len(),
        contains_text(member_field_text(enum_members(m[name].kind)[j], k, opts.skip_none), needle),
    ensures
        schema_items(name, m, opts).last() is Raw,
        contains_text(schema_items(name, m, opts).last()->Raw_0, needle),
{
    let ms = enum_members(m[name].kind);
    let safe = sanitized(name);
    lemma_member_holds(ms[j], safe, j as nat, opts.skip_none, k, needle);
    lemma_members_hold(ms, safe, ms.len(), opts.skip_none, j);
    let all = members_text(ms, safe, ms.len(), opts.skip_none);
    lemma_contains_trans(all, member_text(ms[j], safe, j as nat, opts.skip_none), needle);
    lemma_contains_in("pub enum "@ + safe + " {\n"@, all, "}"@, needle);
    assert(enum_body(safe, ms, opts.skip_none) == "pub enum "@ + safe + " {\n"@ + all + "}"@);
    assert(schema_items(name, m, opts).last() == CodeItem::Raw(enum_body(safe, ms, opts.skip_none)));
}

/// The property `p` is listed among the required names `required`.
pub open spec fn listed(required: Seq<String>, p: Seq<char>) -> bool {
    exists|i: int| 0 <= i < required.len() && #[trigger] required[i]@ == p
}

/// The line of a field: its Rust name and its type.
pub open spec fn field_line(p: Seq<char>, slot: RefOr<SchemaObject>, required: bool) -> Seq<char> {
    "        "@ + field_name(p) + ": "@ + slot_type_name(slot, required) + ",\n"@
}

/// The line that maps a field to the property `p`.
pub open spec fn rename_above(p: Seq<char>) -> Seq<char> {
    "        #[serde(rename = \""@ + p + "\")]\n"@
}

/// The line that skips an absent field.
pub open spec fn skip_above() -> Seq<char> {
    "        #[serde(skip_serializing_if = \"Option::is_none\")]\n"@
}

/// The lines of a field as they are expected: the skip line where asked
/// for, the rename line where the names differ, and the field's line.
#[verifier::rlimit(40)]
proof fn lemma_field_text_facts(
    p: Seq<char>,
    slot: RefOr<SchemaObject>,
    req: Seq<Seq<char>>,
    skip_none: bool,
    required: bool,
)
    requires
        req.contains(p) == required,
    ensures
        contains_text(variant_field_text(p, slot, req, skip_none), field_line(p, slot, required)),
        field_name(p) != p ==> contains_text(
            variant_field_text(p, slot, req, skip_none),
            rename_above(p) + field_line(p, slot, required),
        ),
        skip_none && (!required || slot_nullable(slot)) ==> contains_text(
            variant_field_text(p, slot, req, skip_none),
            skip_above() + (if field_name(p) != p {
                rename_above(p)
            } else {
                Seq::empty()
            }) + field_line(p, slot, required),
        ),
{
    let field = field_line(p, slot, required);
    let ftext = variant_field_text(p, slot, req, skip_none);
    reveal_strlit("        #[serde(rename = \"");
    reveal_strlit("\")]\n");
    reveal_strlit("        #[serde(skip_serializing_if = \"Option::is_none\")]\n");
    reveal_strlit("#[serde(skip_serializing_if = \"Option::is_none\")]");
    reveal_strlit("        ");
    reveal_strlit("#[serde(rename = \"");
    reveal_strlit("\")]");
    reveal_strlit("\n");
    let skip_part = if skip_none && slot_optional(slot, required) {
        "        "@ + skip_none_line() + "\n"@
    } else {
        Seq::empty()
    };
    let rename_part = if field_name(p) != p {
        "        "@ + rename_line(p) + "\n"@
    } else {
        Seq::empty()
    };
    assert(ftext == skip_part + rename_part + field);
    assert(field_name(p) != p ==> rename_part =~= rename_above(p));
    assert(skip_none && slot_optional(slot, required) ==> skip_part =~= skip_above());
    lemma_contains_self(field);
    lemma_contains_in(skip_part + rename_part, field, Seq::empty(), field);
    assert(skip_part + rename_part + field + Seq::<char>::empty() =~= ftext);
    if field_name(p) != p {
        let rf = rename_above(p) + field;
        lemma_contains_self(rf);
        lemma_contains_in(skip_part, rf, Seq::empty(), rf);
        assert(skip_part + rf + Seq::<char>::empty() =~= ftext);
    }
    if skip_none && (!required || slot_nullable(slot)) {
        let whole = skip_above() + (if field_name(p) != p {
            rename_above(p)
        } else {
            Seq::empty()
        }) + field;
        assert(ftext =~= whole);
        lemma_contains_self(whole);
    }
}

/// In the enum written for a `oneOf` or `anyOf`, each property of a member
/// object is written as a field: its Rust name, its type (in `Option<..>`
/// where it is not required or may be null), on a line of its own; where
/// its Rust name differs from the property name, the line
/// `#[serde(rename = "<property name>")]` stands right above it; and where
/// absent optional fields are to be skipped and it is optional, the skip
/// annotation stands above those.
pub proof fn lemma_variant_fields_written(
    name: Seq<char>,
    m: Map<Seq<char>, SchemaObject>,
    opts: GenOptions,
    j: int,
    k: int,
)
    requires
        m.contains_key(name),
        m[name].kind is OneOf || m[name].kind is AnyOf,
        0 <= j < enum_members(m[name].kind).len(),
        enum_members(m[name].kind)[j] is Item,
        enum_members(m[name].kind)[j]->Item_0.kind is TypeForm,
        enum_members(m[name].kind)[j]->Item_0.kind->TypeForm_0 is Object,
        0 <= k < enum_members(m[name].kind)[j]->Item_0.kind->TypeForm_0->Object_0.properties@.len(),
    ensures
        ({
            let o = enum_members(m[name].kind)[j]->Item_0.kind->TypeForm_0->Object_0;
            let p = o.properties@[k].0@;
            let slot = o.properties@[k].1;
            let required = listed(o.required@, p);
            let t = schema_items(name, m, opts).last()->Raw_0;
            &&& schema_items(name, m, opts).last() is Raw
            &&& contains_text(t, field_line(p, slot, required))
            &&& field_name(p) != p ==> contains_text(t, rename_above(p) + field_line(p, slot, required))
            &&& opts.skip_none && (!required || slot_nullable(slot)) ==> contains_text(
                t,
                skip_above() + (if field_name(p) != p {
                    rename_above(p)
                } else {
                    Seq::empty()
                }) + field_line(p, slot, required),
            )
        }),
{
    let member = enum_members(m[name].kind)[j];
    let o = member->Item_0.kind->TypeForm_0->Object_0;
    let p = o.properties@[k].0@;
    let slot = o.properties@[k].1;
    let req = names_of(o.required@);
    let required = listed(o.required@, p);
    assert(req.contains(p) == required) by {
        if required {
            let i = choose|i: int| 0 <= i < o.required@.len() && #[trigger] o.required@[i]@ == p;
            assert(req[i] == p);
        }
        if req.contains(p) {
            let i = choose|i: int| 0 <= i < req.len() && req[i] == p;
            assert(o.required@[i]@ == p);
        }
    }
    lemma_field_text_facts(p, slot, req, opts.skip_none, required);
    assert(member_field_text(member, k, opts.skip_none) == variant_field_text(p, slot, req, opts.skip_none));
    lemma_enum_holds(name, m, opts, j, k, field_line(p, slot, required));
    if field_name(p) != p {
        lemma_enum_holds(name, m, opts, j, k, rename_above(p) + field_line(p, slot, required));
    }
    if opts.skip_none && (!required || slot_nullable(slot)) {
        lemma_enum_holds(
            name,
            m,
            opts,
            j,
            k,
            skip_above() + (if field_name(p) != p {
                rename_above(p)
            } else {
                Seq::empty()
            }) + field_line(p, slot, required),
        );
    }
}

/// Where `Default` is derived, the enum for a string enum with a value that
/// is not null marks exactly its first variant, the variant of its first
/// value that is not null, with `#[default]`: compared with the same enum
/// written without `Default` derived, the first variant gains the line
/// `#[default]` in front, and every other variant is the same.
pub proof fn lemma_default_variant_is_first(
    name: Seq<char>,
    m: Map<Seq<char>, SchemaObject>,
    with_default: GenOptions,
    without: GenOptions,
    i0: int,
)
    requires
        m.contains_key(name),
        m[name].kind matches SchemaForm::TypeForm(TypeForm::String(st)) && 0 <= i0 < st.enumeration@.len()
            && st.enumeration@[i0] is Some && forall|j: int| 0 <= j < i0 ==> #[trigger] st.enumeration@[j] is None,
        with_default.derivatives.contains("Default"@),
        !without.derivatives.contains("Default"@),
    ensures
        ({
            let st = m[name].kind->TypeForm_0->String_0;
            let v0 = st.enumeration@[i0]->Some_0@;
            schema_items(name, m, with_default).last() matches CodeItem::Enum(e1)
                && schema_items(name, m, without).last() matches CodeItem::Enum(e2)
                && e1.variants.len() == e2.variants.len()
                && e2.variants.len() > 0
                && e1.variants[0] == "#[default]\n    "@ + e2.variants[0]
                && (forall|j: int| 1 <= j < e1.variants.len() ==> e1.variants[j] == e2.variants[j])
                && e2.variants[0].len() >= upper_camel_case(v0).len()
                && e2.variants[0].subrange(
                    e2.variants[0].len() - upper_camel_case(v0).len(),
                    e2.variants[0].len() as int,
                ) == upper_camel_case(v0)
        }),
{
    let st = m[name].kind->TypeForm_0->String_0;
    let e = st.enumeration@;
    let v0 = e[i0]->Some_0@;
    lemma_present_first(e, i0);
    let values = present_values(e);
    assert(derive_names(with_default.derivatives).contains("Default"@)) by {
        let j = choose|j: int| 0 <= j < with_default.derivatives.len() && with_default.derivatives[j] == "Default"@;
        assert(derive_names(with_default.derivatives)[j + 1] == "Default"@);
    }
    assert(!derive_names(without.derivatives).contains("Default"@)) by {
        reveal_strlit("Default");
        reveal_strlit("Debug");
        assert("Default"@[2] != "Debug"@[2]);
        if derive_names(without.derivatives).contains("Default"@) {
            let j = choose|j: int| 0 <= j < derive_names(without.derivatives).len() && derive_names(without.derivatives)[j] == "Default"@;
            if j > 0 {
                assert(without.derivatives[j - 1] == "Default"@);
            }
        }
    }
    let pascal = upper_camel_case(v0);
    let t2 = variant_text(v0, false);
    if pascal == v0 {
        assert(t2 =~= pascal);
    } else {
        assert(t2 =~= ("#[serde(rename = \""@ + v0 + "\")]\n    "@) + pascal);
    }
    assert(t2.subrange(t2.len() - pascal.len(), t2.len() as int) =~= pascal);
    assert(variant_text(v0, true) =~= "#[default]\n    "@ + t2);
}

/// The first of the values that are not null is the first of a string
/// enum's present values.
proof fn lemma_present_first(e: Seq<Option<String>>, i0: int)
    requires
        0 <= i0 < e.len(),
        e[i0] is Some,
        forall|j: int| 0 <= j < i0 ==> #[trigger] e[j] is None,
    ensures
        present_values(e).len() > 0,
        present_values(e)[0] == e[i0]->Some_0@,
    decreases e.len(),
{
    if i0 == e.len() - 1 {
        lemma_present_none(e.drop_last());
    } else {
        lemma_present_first(e.drop_last(), i0);
    }
}

proof fn lemma_present_none(e: Seq<Option<String>>)
    requires
        forall|j: int| 0 <= j < e.len() ==> #[trigger] e[j] is None,
    ensures
        present_values(e).len() == 0,
    decreases e.len(),
{
    if e.len() > 0 {
        lemma_present_none(e.drop_last());
    }
}


/// Without `Default` derived, the enum for a string enum has one variant for
/// each value that is not null, in order: the value in upper camel case,
/// with the line `#[serde(rename = "<value>")]` in front where that
/// differs from the value.
pub proof fn lemma_string_enum_variants(name: Seq<char>, m: Map<Seq<char>, SchemaObject>, opts: GenOptions)
    requires
        m.contains_key(name),
        m[name].kind is TypeForm,
        m[name].kind->TypeForm_0 is String,
        m[name].kind->TypeForm_0->String_0.enumeration@.len() > 0,
        !opts.derivatives.contains("Default"@),
    ensures
        ({
            let values = present_values(m[name].kind->TypeForm_0->String_0.enumeration@);
            let e = schema_items(name, m, opts).last()->Enum_0;
            &&& schema_items(name, m, opts).last() is Enum
            &&& e.variants.len() == values.len()
            &&& forall|j: int|
                0 <= j < values.len() ==> #[trigger] e.variants[j] == if upper_camel_case(values[j]) == values[j] {
                    values[j]
                } else {
                    "#[serde(rename = \""@ + values[j] + "\")]\n    "@ + upper_camel_case(values[j])
                }
        }),
{
    let values = present_values(m[name].kind->TypeForm_0->String_0.enumeration@);
    assert(!derive_names(opts.derivatives).contains("Default"@)) by {
        reveal_strlit("Default");
        reveal_strlit("Debug");
        assert("Default"@[2] != "Debug"@[2]);
        if derive_names(opts.derivatives).contains("Default"@) {
            let j = choose|j: int| 0 <= j < derive_names(opts.derivatives).len() && derive_names(opts.derivatives)[j] == "Default"@;
            if j > 0 {
                assert(opts.derivatives[j - 1] == "Default"@);
            }
        }
    }
    let e = schema_items(name, m, opts).last()->Enum_0;
    assert forall|j: int| 0 <= j < values.len() implies #[trigger] e.variants[j] == if upper_camel_case(values[j])
        == values[j] {
        values[j]
    } else {
        "#[serde(rename = \""@ + values[j] + "\")]\n    "@ + upper_camel_case(values[j])
    } by {
        reveal_strlit("#[default]\n    ");
        assert(e.variants[j] == variant_text(values[j], false));
        assert(Seq::<char>::empty() + upper_camel_case(values[j]) =~= upper_camel_case(values[j]));
        assert(Seq::<char>::empty() + "#[serde(rename = \""@ + values[j] + "\")]\n    "@ + upper_camel_case(values[j])
            =~= "#[serde(rename = \""@ + values[j] + "\")]\n    "@ + upper_camel_case(values[j]));
    }
}

} // verus!
