//! The Rust type written for a schema: `String`, `f32`/`f64`, `i32`/`i64`,
//! `bool`, `Vec<..>`, a `BTreeMap` for objects, a sanitized schema name for
//! a reference, and `Option<..>` around what may be absent or null.
use vstd::prelude::*;

use crate::model::{ExtraProperties, ArrayType, IntegerFormat, NumberFormat, RefOr, SchemaObject, SchemaForm, TypeForm};
use crate::name_map::compare_names;
use crate::parse::{last_piece, last_piece_of};
use crate::text::{chars_of, pieces, push_char, push_str, split_pieces, string_from, unicode_alphanumeric, char_is_alphanumeric};

verus! {

/// `c` is one of the ASCII digits `0` to `9`.
pub open spec fn is_ascii_digit(c: char) -> bool {
    '0' <= c <= '9'
}

/// `c` where it is alphanumeric, else `_`.
pub open spec fn safe_char(c: char) -> char {
    if unicode_alphanumeric(c) {
        c
    } else {
        '_'
    }
}

/// `s` with every character that is not alphanumeric replaced by `_`, and
/// an `_` put in front where it would start with an ASCII digit.
pub open spec fn sanitized(s: Seq<char>) -> Seq<char> {
    let m = s.map_values(|c: char| safe_char(c));
    if m.len() > 0 && is_ascii_digit(m[0]) {
        seq!['_'] + m
    } else {
        m
    }
}

/// `s` is an ASCII identifier: ASCII letters, digits and `_`, not starting
/// with a digit.
pub open spec fn is_ascii_identifier(s: Seq<char>) -> bool {
    &&& s.len() > 0 ==> !is_ascii_digit(s[0])
    &&& forall|i: int|
        0 <= i < s.len() ==> ('0' <= #[trigger] s[i] <= '9' || 'a' <= s[i] <= 'z' || 'A' <= s[i] <= 'Z'
            || s[i] == '_')
}

/// A name that can stand as a Rust identifier: every non-alphanumeric
/// character replaced by `_`, and an `_` in front where the name would
/// start with an ASCII digit. An ASCII identifier is left as it is.
pub fn sanitize_name(name: &str) -> (r: String)
    ensures
        r@ == sanitized(name@),
        is_ascii_identifier(name@) ==> r@ == name@,
{
    let cs = chars_of(name);
    let mut out = String::new();
    let mut i: usize = 0;
    while i < cs.len()
        invariant
            cs@ == name@,
            i <= cs@.len(),
            out@ == name@.subrange(0, i as int).map_values(|c: char| safe_char(c)),
            is_ascii_identifier(name@) ==> out@ == name@.subrange(0, i as int),
        decreases cs@.len() - i,
    {
        let c = cs[i];
        assert(c == name@[i as int]);
        if char_is_alphanumeric(c) {
            push_char(&mut out, c);
        } else {
            push_char(&mut out, '_');
        }
        i = i + 1;
        assert(out@ =~= name@.subrange(0, i as int).map_values(|c: char| safe_char(c)));
    }
    assert(name@.subrange(0, cs@.len() as int) =~= name@);
    let ocs = chars_of(out.as_str());
    if ocs.len() > 0 && '0' <= ocs[0] && ocs[0] <= '9' {
        let mut r = string_from("_");
        push_str(&mut r, out.as_str());
        proof {
            reveal_strlit("_");
        }
        assert(r@ =~= seq!['_'] + out@);
        r
    } else {
        out
    }
}

/// A reference that the generator can follow: `#/components/schemas/...`.
pub open spec fn reference_ok(r: Seq<char>) -> bool {
    let p = pieces(r, '/');
    &&& p.len() >= 3
    &&& p[0] == "#"@
    &&& p[1] == "components"@
    &&& p[2] == "schemas"@
}

/// The type name a reference stands for: the sanitized last piece.
pub open spec fn reference_type_name(r: Seq<char>) -> Seq<char> {
    sanitized(last_piece(r))
}

/// The type name for a reference to a component schema
/// (`#/components/schemas/Name` gives `Name`, sanitized).
pub fn handle_reference(reference: String) -> (r: String)
    requires
        reference_ok(reference@),
    ensures
        r@ == reference_type_name(reference@),
{
    let last = last_piece_of(reference.as_str());
    sanitize_name(last.as_str())
}

/// The float type of a `number`: `f64` for the `double` format, `f32`
/// otherwise.
pub open spec fn number_type_name(f: NumberFormat) -> Seq<char> {
    if f is Double {
        "f64"@
    } else {
        "f32"@
    }
}

/// The integer type of an `integer`: `i64` for the `int64` format, `i32`
/// otherwise.
pub open spec fn integer_type_name(f: IntegerFormat) -> Seq<char> {
    if f is Int64 {
        "i64"@
    } else {
        "i32"@
    }
}

/// The map type of an object: from `String` to the referred schema where
/// `additionalProperties` is a reference, else to `serde_json::Value`.
pub open spec fn map_type_name(a: Option<ExtraProperties>) -> Seq<char> {
    match a {
        Some(ExtraProperties::SchemaObject(b)) => match *b {
            RefOr::Reference(r) => "std::collections::BTreeMap<String, "@ + last_piece(r@) + ">"@,
            _ => "std::collections::BTreeMap<String, serde_json::Value>"@,
        },
        _ => "std::collections::BTreeMap<String, serde_json::Value>"@,
    }
}

/// The Rust type of a type.
pub open spec fn rust_type(t: TypeForm) -> Seq<char>
    decreases t,
{
    match t {
        TypeForm::String(_) => "String"@,
        TypeForm::Number(f) => number_type_name(f),
        TypeForm::Integer(f) => integer_type_name(f),
        TypeForm::Object(o) => map_type_name(o.additional_properties),
        TypeForm::Array(a) => match a.items {
            Some(b) => "Vec<"@ + slot_type_name(*b, true) + ">"@,
            None => "Vec<"@ + ">"@,
        },
        TypeForm::Boolean => "bool"@,
    }
}

/// The Rust type of a schema kind: that of its type, or
/// `serde_json::Value` for a composition.
pub open spec fn kind_type_name(k: SchemaForm) -> Seq<char>
    decreases k,
{
    match k {
        SchemaForm::TypeForm(t) => rust_type(t),
        _ => "serde_json::Value"@,
    }
}

/// The Rust type of a slot, in `Option<..>` unless it is required and not
/// nullable (a reference is never nullable).
pub open spec fn slot_type_name(slot: RefOr<SchemaObject>, required: bool) -> Seq<char>
    decreases slot,
{
    let t = match slot {
        RefOr::Item(s) => kind_type_name(s.kind),
        RefOr::Reference(r) => reference_type_name(r@),
    };
    if required && !slot_nullable(slot) {
        t
    } else {
        "Option<"@ + t + ">"@
    }
}

/// A slot is nullable where it holds a schema in place that says so.
pub open spec fn slot_nullable(slot: RefOr<SchemaObject>) -> bool {
    match slot {
        RefOr::Item(s) => s.nullable,
        RefOr::Reference(_) => false,
    }
}

/// The type of `t` can be written: every array on the way has items, and
/// every reference on the way is one to a component schema.
pub open spec fn type_renders(t: TypeForm) -> bool
    decreases t,
{
    match t {
        TypeForm::Array(a) => match a.items {
            Some(b) => slot_renders(*b),
            None => false,
        },
        _ => true,
    }
}

/// The type of `k` can be written.
pub open spec fn kind_renders(k: SchemaForm) -> bool
    decreases k,
{
    match k {
        SchemaForm::TypeForm(t) => type_renders(t),
        _ => true,
    }
}

/// The type of `slot` can be written.
pub open spec fn slot_renders(slot: RefOr<SchemaObject>) -> bool
    decreases slot,
{
    match slot {
        RefOr::Item(s) => kind_renders(s.kind),
        RefOr::Reference(r) => reference_ok(r@),
    }
}

fn get_number_type(f: &NumberFormat) -> (r: String)
    ensures
        r@ == number_type_name(*f),
{
    match f {
        NumberFormat::Double => string_from("f64"),
        _ => string_from("f32"),
    }
}

fn get_integer_type(f: &IntegerFormat) -> (r: String)
    ensures
        r@ == integer_type_name(*f),
{
    match f {
        IntegerFormat::Int64 => string_from("i64"),
        _ => string_from("i32"),
    }
}

/// The Rust type of a type.
pub fn gen_type_name_for_type(t: &TypeForm) -> (r: String)
    requires
        type_renders(*t),
    ensures
        r@ == rust_type(*t),
    decreases t, 0nat,
{
    match t {
        TypeForm::String(_) => string_from("String"),
        TypeForm::Number(f) => get_number_type(f),
        TypeForm::Integer(f) => get_integer_type(f),
        TypeForm::Object(o) => {
            if let Some(ExtraProperties::SchemaObject(b)) = &o.additional_properties {
                if let RefOr::Reference(reference) = &**b {
                    let mut r = string_from("std::collections::BTreeMap<String, ");
                    let last = last_piece_of(reference.as_str());
                    push_str(&mut r, last.as_str());
                    push_str(&mut r, ">");
                    return r;
                }
            }
            string_from("std::collections::BTreeMap<String, serde_json::Value>")
        },
        TypeForm::Array(a) => gen_array_type(a),
        TypeForm::Boolean => string_from("bool"),
    }
}

/// The Rust type of a schema kind.
pub fn gen_property_type_for_schema_kind(k: &SchemaForm) -> (r: String)
    requires
        kind_renders(*k),
    ensures
        r@ == kind_type_name(*k),
    decreases k, 1nat,
{
    match k {
        SchemaForm::TypeForm(t) => gen_type_name_for_type(t),
        _ => string_from("serde_json::Value"),
    }
}

/// The Rust type of a slot, in `Option<..>` unless it is required and not
/// nullable.
pub fn get_property_type_from_schema_refor(slot: &RefOr<SchemaObject>, is_required: bool) -> (r: String)
    requires
        slot_renders(*slot),
    ensures
        r@ == slot_type_name(*slot, is_required),
    decreases slot, 2nat,
{
    let (t, nullable) = match slot {
        RefOr::Item(i) => (gen_property_type_for_schema_kind(&i.kind), i.nullable),
        RefOr::Reference(reference) => (handle_reference(reference.clone()), false),
    };
    if is_required && !nullable {
        t
    } else {
        let mut r = string_from("Option<");
        push_str(&mut r, t.as_str());
        push_str(&mut r, ">");
        r
    }
}

/// The Rust type of an array that has items: `Vec<..>` of the items' type.
pub fn gen_array_type(a: &ArrayType) -> (r: String)
    requires
        type_renders(TypeForm::Array(*a)),
    ensures
        r@ == rust_type(TypeForm::Array(*a)),
    decreases a, 3nat,
{
    let items = a.items.as_ref().unwrap();
    let inner = get_property_type_from_schema_refor(&**items, true);
    let mut r = string_from("Vec<");
    push_str(&mut r, inner.as_str());
    push_str(&mut r, ">");
    r
}


/// Whether the reference is one to a component schema.
pub fn check_reference(r: &str) -> (b: bool)
    ensures
        b == reference_ok(r@),
{
    let p = split_pieces(r, '/');
    if p.len() < 3 {
        return false;
    }
    compare_names(p[0].as_str(), "#") == 0 && compare_names(p[1].as_str(), "components") == 0
        && compare_names(p[2].as_str(), "schemas") == 0
}

/// Whether the type of `t` can be written.
pub fn check_type_renders(t: &TypeForm) -> (b: bool)
    ensures
        b == type_renders(*t),
    decreases t, 0nat,
{
    match t {
        TypeForm::Array(a) => match &a.items {
            Some(items) => check_slot_renders(&**items),
            None => false,
        },
        _ => true,
    }
}

/// Whether the type of `k` can be written.
pub fn check_kind_renders(k: &SchemaForm) -> (b: bool)
    ensures
        b == kind_renders(*k),
    decreases k, 1nat,
{
    match k {
        SchemaForm::TypeForm(t) => check_type_renders(t),
        _ => true,
    }
}

/// Whether the type of `slot` can be written.
pub fn check_slot_renders(slot: &RefOr<SchemaObject>) -> (b: bool)
    ensures
        b == slot_renders(*slot),
    decreases slot, 2nat,
{
    match slot {
        RefOr::Item(s) => check_kind_renders(&s.kind),
        RefOr::Reference(r) => check_reference(r.as_str()),
    }
}


/// A sanitized name is made of alphanumeric characters and `_`, does not
/// start with an ASCII digit, and sanitizing it again leaves it as it is.
pub proof fn lemma_sanitized_is_identifier(s: Seq<char>)
    ensures
        forall|i: int|
            0 <= i < sanitized(s).len() ==> unicode_alphanumeric(#[trigger] sanitized(s)[i])
                || sanitized(s)[i] == '_',
        sanitized(s).len() > 0 ==> !is_ascii_digit(sanitized(s)[0]),
        sanitized(sanitized(s)) == sanitized(s),
{
    let t = sanitized(s);
    let m = s.map_values(|c: char| safe_char(c));
    assert forall|i: int| 0 <= i < t.len() implies unicode_alphanumeric(#[trigger] t[i]) || t[i] == '_' by {
        if m.len() > 0 && is_ascii_digit(m[0]) {
            if i > 0 {
                assert(t[i] == m[i - 1]);
            }
        } else {
            assert(t[i] == m[i]);
        }
    }
    let tm = t.map_values(|c: char| safe_char(c));
    assert(tm =~= t) by {
        assert forall|i: int| 0 <= i < t.len() implies tm[i] == t[i] by {
            assert(unicode_alphanumeric(t[i]) || t[i] == '_');
        }
    }
}

} // verus!
