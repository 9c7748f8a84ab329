//! Lifting the complex schemas that stand nested in other schemas (objects
//! with properties, string enums, `allOf`/`anyOf`/`oneOf`) out into schemas
//! of their own, each referred to from where it stood.
use vstd::prelude::*;
use vstd::multiset::Multiset;
use vstd::set_lib::{lemma_int_range, lemma_len_subset, lemma_map_size, set_int_range};

use crate::model::{
    same_kind, same_members, same_props, same_schema, same_slot, same_type, ArrayType, ObjectForm, RefOr, SchemaObject,
    SchemaForm, TypeForm,
};
use crate::name_map::{lemma_name_order, name_lt, sum_entries};
use crate::names::{to_upper_camel_case, upper_camel_case};
use crate::parse::SchemaMap;
use crate::text::{decimal, digit, push_decimal, push_str, string_from, trim, trimmed};

verus! {

broadcast use vstd::multiset::group_multiset_axioms;

/// The bound below which the number of schemas must stay, so that a free
/// numbered name can always be found.
pub open spec fn name_bound() -> nat {
    (u32::MAX - 2) as nat
}

/// A schema that gets a name of its own when it stands nested in another:
/// an object with properties, a string enum, or an `allOf`, `anyOf` or
/// `oneOf`.
pub open spec fn is_complex_kind(kind: SchemaForm) -> bool {
    match kind {
        SchemaForm::TypeForm(TypeForm::Object(o)) => o.properties@.len() > 0,
        SchemaForm::TypeForm(TypeForm::String(s)) => s.enumeration@.len() > 0,
        SchemaForm::TypeForm(_) => false,
        SchemaForm::AllOf(_) | SchemaForm::AnyOf(_) | SchemaForm::OneOf(_) => true,
        _ => false,
    }
}

/// The number of complex schemas nested in `kind` that `normalize` lifts
/// out: those at the properties of objects, the items of arrays and the
/// members of `allOf`, counted down through the schemas that stay in place
/// (including the members of `anyOf` and `oneOf`, which stay in place).
pub open spec fn nested(kind: SchemaForm) -> nat
    decreases kind,
{
    match kind {
        SchemaForm::TypeForm(TypeForm::Object(o)) => props_nested(o.properties@),
        SchemaForm::TypeForm(TypeForm::Array(a)) => match a.items {
            Some(b) => slot_nested(*b),
            None => 0,
        },
        SchemaForm::AllOf(ms) => members_lifted(ms@),
        SchemaForm::AnyOf(ms) => members_walked(ms@),
        SchemaForm::OneOf(ms) => members_walked(ms@),
        _ => 0,
    }
}

/// The complex schemas at a slot that lifts: the schema in it, if complex,
/// and those nested in it.
pub open spec fn slot_nested(slot: RefOr<SchemaObject>) -> nat
    decreases slot,
{
    match slot {
        RefOr::Reference(_) => 0,
        RefOr::Item(s) => if is_complex_kind(s.kind) {
            1 + nested(s.kind)
        } else {
            nested(s.kind)
        },
    }
}

pub open spec fn props_nested(ps: Seq<(String, RefOr<SchemaObject>)>) -> nat
    decreases ps,
{
    if ps.len() == 0 {
        0
    } else {
        props_nested(ps.drop_last()) + slot_nested(ps.last().1)
    }
}

pub open spec fn members_lifted(ms: Seq<RefOr<SchemaObject>>) -> nat
    decreases ms,
{
    if ms.len() == 0 {
        0
    } else {
        members_lifted(ms.drop_last()) + slot_nested(ms.last())
    }
}

pub open spec fn members_walked(ms: Seq<RefOr<SchemaObject>>) -> nat
    decreases ms,
{
    if ms.len() == 0 {
        0
    } else {
        members_walked(ms.drop_last()) + match ms.last() {
            RefOr::Item(s) => nested(s.kind),
            _ => 0,
        }
    }
}

/// The reference that stands in place of a schema lifted out under `name`.
pub open spec fn schema_ref(name: Seq<char>) -> Seq<char> {
    "#/components/schemas/"@ + name
}

/// `r` is the name made unique for `s` among the names `taken`: `s` where
/// it is free, else the first free one of `s2`, `s3`, ....
pub open spec fn is_unique_name_in(taken: Set<Seq<char>>, s: Seq<char>, r: Seq<char>) -> bool {
    &&& !taken.contains(r)
    &&& !taken.contains(s) ==> r == s
    &&& taken.contains(s) ==> exists|i: nat|
        2 <= i < u32::MAX && r == numbered(s, i) && forall|j: nat|
            2 <= j < i ==> taken.contains(#[trigger] numbered(s, j))
}

/// `n` is the name made unique for `s` among some of the names `names`
/// (those taken when the name was made).
pub open spec fn named_uniquely(names: Set<Seq<char>>, s: Seq<char>, n: Seq<char>) -> bool {
    exists|taken: Set<Seq<char>>| #[trigger] taken.subset_of(names) && is_unique_name_in(taken, s, n)
}

/// `new` is `old`, standing under the name `parent` (or where that name
/// suggests), with every complex schema that stands in a slot that lifts
/// replaced by a reference to a schema of `names`, named as `normalize`
/// names it, and what is nested in the other schemas lifted in turn: the
/// properties, items and members stay, in order, with their names.
pub open spec fn kind_lifted(
    new: SchemaForm,
    old: SchemaForm,
    names: Set<Seq<char>>,
    parent: Seq<char>,
    ok: spec_fn(Seq<char>, SchemaObject) -> bool,
) -> bool
    decreases old,
{
    match old {
        SchemaForm::TypeForm(TypeForm::Object(o)) => match new {
            SchemaForm::TypeForm(TypeForm::Object(p)) => p.required == o.required && p.additional_properties
                == o.additional_properties && props_lifted(p.properties@, o.properties@, names, parent, ok),
            _ => false,
        },
        SchemaForm::TypeForm(TypeForm::Array(a)) => match new {
            SchemaForm::TypeForm(TypeForm::Array(c)) => match a.items {
                Some(b) => match c.items {
                    Some(d) => slot_lifted(*d, *b, names, parent + "Item"@, ok),
                    None => false,
                },
                None => c.items is None,
            },
            _ => false,
        },
        SchemaForm::AllOf(ms) => match new {
            SchemaForm::AllOf(ns) => members_lifted_to(ns@, ms@, names, parent, ok),
            _ => false,
        },
        SchemaForm::AnyOf(ms) => match new {
            SchemaForm::AnyOf(ns) => members_walked_to(ns@, ms@, names, parent, ok),
            _ => false,
        },
        SchemaForm::OneOf(ms) => match new {
            SchemaForm::OneOf(ns) => members_walked_to(ns@, ms@, names, parent, ok),
            _ => false,
        },
        _ => new == old,
    }
}

/// The schema `new` is `old`, named `parent`, with what is nested in it
/// lifted.
pub open spec fn schema_lifted(
    new: SchemaObject,
    old: SchemaObject,
    names: Set<Seq<char>>,
    parent: Seq<char>,
    ok: spec_fn(Seq<char>, SchemaObject) -> bool,
) -> bool {
    new.title == old.title && new.description == old.description && new.nullable == old.nullable
        && kind_lifted(new.kind, old.kind, names, parent, ok)
}

/// A slot that lifts, with the name that where it stands suggests: a
/// complex schema in it is replaced by a reference to a schema of `names`,
/// named by its preferred name made unique; another schema stays with what
/// is nested in it lifted; a reference stays.
pub open spec fn slot_lifted(
    new: RefOr<SchemaObject>,
    old: RefOr<SchemaObject>,
    names: Set<Seq<char>>,
    suggested: Seq<char>,
    ok: spec_fn(Seq<char>, SchemaObject) -> bool,
) -> bool
    decreases old,
{
    match old {
        RefOr::Reference(r) => new == RefOr::<SchemaObject>::Reference(r),
        RefOr::Item(s) => if is_complex_kind(s.kind) {
            match new {
                RefOr::Reference(r) => exists|n: Seq<char>|
                    #[trigger] names.contains(n) && r@ == schema_ref(n) && named_uniquely(
                        names,
                        preferred_name_of(suggested, s),
                        n,
                    ) && ok(n, s),
                _ => false,
            }
        } else {
            match new {
                RefOr::Item(t) => t.title == s.title && t.description == s.description && t.nullable
                    == s.nullable && kind_lifted(t.kind, s.kind, names, suggested, ok),
                _ => false,
            }
        },
    }
}

/// The properties of an object named `parent`: each suggests the name
/// `{parent}{Property}`.
pub open spec fn props_lifted(
    new: Seq<(String, RefOr<SchemaObject>)>,
    old: Seq<(String, RefOr<SchemaObject>)>,
    names: Set<Seq<char>>,
    parent: Seq<char>,
    ok: spec_fn(Seq<char>, SchemaObject) -> bool,
) -> bool
    decreases old,
{
    if old.len() == 0 {
        new.len() == 0
    } else {
        new.len() == old.len() && props_lifted(new.drop_last(), old.drop_last(), names, parent, ok)
            && new.last().0 == old.last().0 && slot_lifted(
            new.last().1,
            old.last().1,
            names,
            parent + upper_camel_case(old.last().0@),
            ok,
        )
    }
}

/// The members of an `allOf` named `parent`: the `i`-th suggests the name
/// `{parent}AllOf{i}`.
pub open spec fn members_lifted_to(
    new: Seq<RefOr<SchemaObject>>,
    old: Seq<RefOr<SchemaObject>>,
    names: Set<Seq<char>>,
    parent: Seq<char>,
    ok: spec_fn(Seq<char>, SchemaObject) -> bool,
) -> bool
    decreases old,
{
    if old.len() == 0 {
        new.len() == 0
    } else {
        new.len() == old.len() && members_lifted_to(new.drop_last(), old.drop_last(), names, parent, ok)
            && slot_lifted(new.last(), old.last(), names, parent + "AllOf"@ + decimal((old.len() - 1) as nat), ok)
    }
}

/// A member of an `anyOf` or `oneOf`, which stays in place, under the name
/// `vparent`, with what is nested in it lifted.
pub open spec fn member_walked_to(
    new: RefOr<SchemaObject>,
    old: RefOr<SchemaObject>,
    names: Set<Seq<char>>,
    vparent: Seq<char>,
    ok: spec_fn(Seq<char>, SchemaObject) -> bool,
) -> bool
    decreases old,
{
    match old {
        RefOr::Reference(r) => new == RefOr::<SchemaObject>::Reference(r),
        RefOr::Item(s) => match new {
            RefOr::Item(t) => t.title == s.title && t.description == s.description && t.nullable == s.nullable
                && kind_lifted(t.kind, s.kind, names, vparent, ok),
            _ => false,
        },
    }
}

/// The members of an `anyOf` or `oneOf` of `parent`, each under its
/// variant name.
pub open spec fn members_walked_to(
    new: Seq<RefOr<SchemaObject>>,
    old: Seq<RefOr<SchemaObject>>,
    names: Set<Seq<char>>,
    parent: Seq<char>,
    ok: spec_fn(Seq<char>, SchemaObject) -> bool,
) -> bool
    decreases old,
{
    if old.len() == 0 {
        new.len() == 0
    } else {
        new.len() == old.len() && members_walked_to(new.drop_last(), old.drop_last(), names, parent, ok)
            && member_walked_to(
            new.last(),
            old.last(),
            names,
            variant_name_of(parent, (old.len() - 1) as nat, old.last()),
            ok,
        )
    }
}

/// The names that the references put into `new` in place of the complex
/// schemas of the slot `old` point at (`new` standing to `old` as
/// `slot_lifted` says).
pub open spec fn slot_targets(new: RefOr<SchemaObject>, old: RefOr<SchemaObject>) -> Multiset<Seq<char>>
    decreases old,
{
    match old {
        RefOr::Reference(_) => Multiset::empty(),
        RefOr::Item(s) => if is_complex_kind(s.kind) {
            match new {
                RefOr::Reference(r) => Multiset::singleton(ref_target(r@)),
                _ => Multiset::empty(),
            }
        } else {
            match new {
                RefOr::Item(t) => kind_targets(t.kind, s.kind),
                _ => Multiset::empty(),
            }
        },
    }
}

/// The names that the references put into `new` in place of the complex
/// schemas nested in `old` point at.
pub open spec fn kind_targets(new: SchemaForm, old: SchemaForm) -> Multiset<Seq<char>>
    decreases old,
{
    match old {
        SchemaForm::TypeForm(TypeForm::Object(o)) => match new {
            SchemaForm::TypeForm(TypeForm::Object(p)) => props_targets(p.properties@, o.properties@),
            _ => Multiset::empty(),
        },
        SchemaForm::TypeForm(TypeForm::Array(a)) => match new {
            SchemaForm::TypeForm(TypeForm::Array(c)) => match a.items {
                Some(b) => match c.items {
                    Some(d) => slot_targets(*d, *b),
                    None => Multiset::empty(),
                },
                None => Multiset::empty(),
            },
            _ => Multiset::empty(),
        },
        SchemaForm::AllOf(ms) => match new {
            SchemaForm::AllOf(ns) => members_targets(ns@, ms@),
            _ => Multiset::empty(),
        },
        SchemaForm::AnyOf(ms) => match new {
            SchemaForm::AnyOf(ns) => walked_targets(ns@, ms@),
            _ => Multiset::empty(),
        },
        SchemaForm::OneOf(ms) => match new {
            SchemaForm::OneOf(ns) => walked_targets(ns@, ms@),
            _ => Multiset::empty(),
        },
        _ => Multiset::empty(),
    }
}

/// The targets of the references put into the properties of an object.
pub open spec fn props_targets(
    new: Seq<(String, RefOr<SchemaObject>)>,
    old: Seq<(String, RefOr<SchemaObject>)>,
) -> Multiset<Seq<char>>
    decreases old,
{
    if old.len() == 0 || new.len() == 0 {
        Multiset::empty()
    } else {
        props_targets(new.drop_last(), old.drop_last()).add(slot_targets(new.last().1, old.last().1))
    }
}

/// The targets of the references put into the members of an `allOf`.
pub open spec fn members_targets(new: Seq<RefOr<SchemaObject>>, old: Seq<RefOr<SchemaObject>>) -> Multiset<Seq<char>>
    decreases old,
{
    if old.len() == 0 || new.len() == 0 {
        Multiset::empty()
    } else {
        members_targets(new.drop_last(), old.drop_last()).add(slot_targets(new.last(), old.last()))
    }
}

/// The targets of the references put into what is nested in a member of an
/// `anyOf` or `oneOf`.
pub open spec fn member_walked_targets(new: RefOr<SchemaObject>, old: RefOr<SchemaObject>) -> Multiset<Seq<char>>
    decreases old,
{
    match old {
        RefOr::Reference(_) => Multiset::empty(),
        RefOr::Item(s) => match new {
            RefOr::Item(t) => kind_targets(t.kind, s.kind),
            _ => Multiset::empty(),
        },
    }
}

/// The targets of the references put into the members of an `anyOf` or
/// `oneOf`.
pub open spec fn walked_targets(new: Seq<RefOr<SchemaObject>>, old: Seq<RefOr<SchemaObject>>) -> Multiset<Seq<char>>
    decreases old,
{
    if old.len() == 0 || new.len() == 0 {
        Multiset::empty()
    } else {
        walked_targets(new.drop_last(), old.drop_last()).add(member_walked_targets(new.last(), old.last()))
    }
}

/// Each name that `m1` has and `m0` has not is among `t`.
pub open spec fn added_within(m0: Map<Seq<char>, SchemaObject>, m1: Map<Seq<char>, SchemaObject>, t: Multiset<Seq<char>>) -> bool {
    forall|k: Seq<char>| #[trigger] m1.contains_key(k) && !m0.contains_key(k) ==> t.contains(k)
}

/// Each name of `t` is one that `m1` has and `m0` has not.
pub open spec fn fresh_within(m0: Map<Seq<char>, SchemaObject>, m1: Map<Seq<char>, SchemaObject>, t: Multiset<Seq<char>>) -> bool {
    forall|n: Seq<char>| #[trigger] t.contains(n) ==> m1.contains_key(n) && !m0.contains_key(n)
}

proof fn lemma_fresh_within_trans(
    m0: Map<Seq<char>, SchemaObject>,
    m1: Map<Seq<char>, SchemaObject>,
    m2: Map<Seq<char>, SchemaObject>,
    t0: Multiset<Seq<char>>,
    t1: Multiset<Seq<char>>,
)
    requires
        fresh_within(m0, m1, t0),
        fresh_within(m1, m2, t1),
        m0.dom().subset_of(m1.dom()),
        m1.dom().subset_of(m2.dom()),
    ensures
        fresh_within(m0, m2, t0.add(t1)),
{
    assert forall|n: Seq<char>| #[trigger] t0.add(t1).contains(n) implies m2.contains_key(n) && !m0.contains_key(n) by {
        if t0.contains(n) {
            assert(m1.contains_key(n));
        } else {
            assert(t1.contains(n));
        }
    }
}

/// The name that a reference to a component schema names.
pub open spec fn ref_target(r: Seq<char>) -> Seq<char> {
    r.skip("#/components/schemas/"@.len() as int)
}

proof fn lemma_ref_target(n: Seq<char>)
    ensures
        ref_target(schema_ref(n)) == n,
{
    assert(schema_ref(n).skip("#/components/schemas/"@.len() as int) =~= n);
}

/// No name occurs twice among the targets `t`.
pub open spec fn distinct_targets(t: Multiset<Seq<char>>) -> bool {
    forall|n: Seq<char>| #[trigger] t.count(n) <= 1
}

proof fn lemma_distinct_add(t0: Multiset<Seq<char>>, t1: Multiset<Seq<char>>, m1: Map<Seq<char>, SchemaObject>)
    requires
        distinct_targets(t0),
        distinct_targets(t1),
        forall|n: Seq<char>| #[trigger] t0.contains(n) ==> m1.contains_key(n),
        forall|n: Seq<char>| #[trigger] t1.contains(n) ==> !m1.contains_key(n),
    ensures
        distinct_targets(t0.add(t1)),
{
    assert forall|n: Seq<char>| #[trigger] t0.add(t1).count(n) <= 1 by {
        if t0.count(n) > 0 {
            assert(t0.contains(n));
            assert(!t1.contains(n));
        }
    }
}

proof fn lemma_added_within_trans(
    m0: Map<Seq<char>, SchemaObject>,
    m1: Map<Seq<char>, SchemaObject>,
    m2: Map<Seq<char>, SchemaObject>,
    t0: Multiset<Seq<char>>,
    t1: Multiset<Seq<char>>,
)
    requires
        added_within(m0, m1, t0),
        added_within(m1, m2, t1),
        m1.dom().subset_of(m2.dom()),
    ensures
        added_within(m0, m2, t0.add(t1)),
{
    assert forall|k: Seq<char>| #[trigger] m2.contains_key(k) && !m0.contains_key(k) implies t0.add(t1).contains(k) by {
        if m1.contains_key(k) {
            assert(t0.contains(k));
        } else {
            assert(t1.contains(k));
        }
    }
}

/// Schemas of the same shape have the same targets.
proof fn lemma_same_kind_targets(a: SchemaForm, b: SchemaForm, old: SchemaForm)
    requires
        same_kind(a, b),
    ensures
        kind_targets(a, old) == kind_targets(b, old),
    decreases old,
{
    match old {
        SchemaForm::TypeForm(TypeForm::Object(o)) => {
            if let SchemaForm::TypeForm(TypeForm::Object(p)) = b {
                let q = a->TypeForm_0->Object_0;
                lemma_same_props_targets(q.properties@, p.properties@, o.properties@);
            }
        },
        SchemaForm::TypeForm(TypeForm::Array(x)) => {
            if let Some(bx) = x.items {
                if let SchemaForm::TypeForm(TypeForm::Array(c)) = b {
                    if let Some(db) = c.items {
                        let da = a->TypeForm_0->Array_0.items.unwrap();
                        lemma_same_slot_targets(*da, *db, *bx);
                    }
                }
            }
        },
        SchemaForm::AllOf(ms) => {
            if let SchemaForm::AllOf(y) = b {
                lemma_same_members_targets(a->AllOf_0@, y@, ms@);
            }
        },
        SchemaForm::AnyOf(ms) => {
            if let SchemaForm::AnyOf(y) = b {
                lemma_same_walked_targets(a->AnyOf_0@, y@, ms@);
            }
        },
        SchemaForm::OneOf(ms) => {
            if let SchemaForm::OneOf(y) = b {
                lemma_same_walked_targets(a->OneOf_0@, y@, ms@);
            }
        },
        _ => {},
    }
}

proof fn lemma_same_slot_targets(a: RefOr<SchemaObject>, b: RefOr<SchemaObject>, old: RefOr<SchemaObject>)
    requires
        same_slot(a, b),
    ensures
        slot_targets(a, old) == slot_targets(b, old),
    decreases old,
{
    match old {
        RefOr::Reference(_) => {},
        RefOr::Item(s) => {
            if let RefOr::Item(t) = b {
                lemma_same_kind_targets(a->Item_0.kind, t.kind, s.kind);
            }
            if let RefOr::Reference(r) = b {
                assert(slot_targets(a, old) =~= slot_targets(b, old));
            }
        },
    }
}

proof fn lemma_same_props_targets(
    a: Seq<(String, RefOr<SchemaObject>)>,
    b: Seq<(String, RefOr<SchemaObject>)>,
    old: Seq<(String, RefOr<SchemaObject>)>,
)
    requires
        same_props(a, b),
    ensures
        props_targets(a, old) == props_targets(b, old),
    decreases old,
{
    if old.len() > 0 && a.len() > 0 {
        lemma_same_props_targets(a.drop_last(), b.drop_last(), old.drop_last());
        lemma_same_slot_targets(a.last().1, b.last().1, old.last().1);
    }
}

proof fn lemma_same_members_targets(a: Seq<RefOr<SchemaObject>>, b: Seq<RefOr<SchemaObject>>, old: Seq<RefOr<SchemaObject>>)
    requires
        same_members(a, b),
    ensures
        members_targets(a, old) == members_targets(b, old),
    decreases old,
{
    if old.len() > 0 && a.len() > 0 {
        lemma_same_members_targets(a.drop_last(), b.drop_last(), old.drop_last());
        lemma_same_slot_targets(a.last(), b.last(), old.last());
    }
}

proof fn lemma_same_walked_targets(a: Seq<RefOr<SchemaObject>>, b: Seq<RefOr<SchemaObject>>, old: Seq<RefOr<SchemaObject>>)
    requires
        same_members(a, b),
    ensures
        walked_targets(a, old) == walked_targets(b, old),
    decreases old,
{
    if old.len() > 0 && a.len() > 0 {
        lemma_same_walked_targets(a.drop_last(), b.drop_last(), old.drop_last());
        let (x, y, z) = (a.last(), b.last(), old.last());
        if let RefOr::Item(s) = z {
            assert(same_slot(x, y));
            if let RefOr::Item(xs) = x {
                let t = y->Item_0;
                assert(same_schema(xs, t));
                lemma_same_kind_targets(xs.kind, t.kind, s.kind);
            }
        }
        assert(member_walked_targets(x, z) == member_walked_targets(y, z));
    }
}

/// The relation is kept where the names grow and what is asked of each
/// replaced schema is weakened.
proof fn lemma_kind_lifted_grow(
    new: SchemaForm,
    old: SchemaForm,
    d1: Set<Seq<char>>,
    d2: Set<Seq<char>>,
    parent: Seq<char>,
    ok1: spec_fn(Seq<char>, SchemaObject) -> bool,
    ok2: spec_fn(Seq<char>, SchemaObject) -> bool,
)
    requires
        kind_lifted(new, old, d1, parent, ok1),
        d1.subset_of(d2),
        forall|n: Seq<char>, x: SchemaObject| #[trigger] ok1(n, x) ==> ok2(n, x),
    ensures
        kind_lifted(new, old, d2, parent, ok2),
    decreases old,
{
    match old {
        SchemaForm::TypeForm(TypeForm::Object(o)) => {
            let p = new->TypeForm_0->Object_0;
            lemma_props_lifted_grow(p.properties@, o.properties@, d1, d2, parent, ok1, ok2);
        },
        SchemaForm::TypeForm(TypeForm::Array(a)) => {
            if let Some(b) = a.items {
                let d = new->TypeForm_0->Array_0.items.unwrap();
                lemma_slot_lifted_grow(*d, *b, d1, d2, parent + "Item"@, ok1, ok2);
            }
        },
        SchemaForm::AllOf(ms) => {
            lemma_members_lifted_grow(new->AllOf_0@, ms@, d1, d2, parent, ok1, ok2);
        },
        SchemaForm::AnyOf(ms) => {
            lemma_members_walked_grow(new->AnyOf_0@, ms@, d1, d2, parent, ok1, ok2);
        },
        SchemaForm::OneOf(ms) => {
            lemma_members_walked_grow(new->OneOf_0@, ms@, d1, d2, parent, ok1, ok2);
        },
        _ => {},
    }
}

proof fn lemma_slot_lifted_grow(
    new: RefOr<SchemaObject>,
    old: RefOr<SchemaObject>,
    d1: Set<Seq<char>>,
    d2: Set<Seq<char>>,
    suggested: Seq<char>,
    ok1: spec_fn(Seq<char>, SchemaObject) -> bool,
    ok2: spec_fn(Seq<char>, SchemaObject) -> bool,
)
    requires
        slot_lifted(new, old, d1, suggested, ok1),
        d1.subset_of(d2),
        forall|n: Seq<char>, x: SchemaObject| #[trigger] ok1(n, x) ==> ok2(n, x),
    ensures
        slot_lifted(new, old, d2, suggested, ok2),
    decreases old,
{
    match old {
        RefOr::Reference(_) => {},
        RefOr::Item(s) => {
            if is_complex_kind(s.kind) {
                let r = new->Reference_0;
                let p = preferred_name_of(suggested, s);
                let n = choose|n: Seq<char>|
                    #[trigger] d1.contains(n) && r@ == schema_ref(n) && named_uniquely(d1, p, n) && ok1(n, s);
                let taken = choose|taken: Set<Seq<char>>| #[trigger] taken.subset_of(d1) && is_unique_name_in(taken, p, n);
                assert(taken.subset_of(d2));
                assert(named_uniquely(d2, p, n));
                assert(d2.contains(n));
                assert(ok2(n, s));
            } else {
                lemma_kind_lifted_grow(new->Item_0.kind, s.kind, d1, d2, suggested, ok1, ok2);
            }
        },
    }
}

proof fn lemma_props_lifted_grow(
    new: Seq<(String, RefOr<SchemaObject>)>,
    old: Seq<(String, RefOr<SchemaObject>)>,
    d1: Set<Seq<char>>,
    d2: Set<Seq<char>>,
    parent: Seq<char>,
    ok1: spec_fn(Seq<char>, SchemaObject) -> bool,
    ok2: spec_fn(Seq<char>, SchemaObject) -> bool,
)
    requires
        props_lifted(new, old, d1, parent, ok1),
        d1.subset_of(d2),
        forall|n: Seq<char>, x: SchemaObject| #[trigger] ok1(n, x) ==> ok2(n, x),
    ensures
        props_lifted(new, old, d2, parent, ok2),
    decreases old,
{
    if old.len() > 0 {
        lemma_props_lifted_grow(new.drop_last(), old.drop_last(), d1, d2, parent, ok1, ok2);
        lemma_slot_lifted_grow(
            new.last().1,
            old.last().1,
            d1,
            d2,
            parent + upper_camel_case(old.last().0@),
            ok1,
            ok2,
        );
    }
}

proof fn lemma_members_lifted_grow(
    new: Seq<RefOr<SchemaObject>>,
    old: Seq<RefOr<SchemaObject>>,
    d1: Set<Seq<char>>,
    d2: Set<Seq<char>>,
    parent: Seq<char>,
    ok1: spec_fn(Seq<char>, SchemaObject) -> bool,
    ok2: spec_fn(Seq<char>, SchemaObject) -> bool,
)
    requires
        members_lifted_to(new, old, d1, parent, ok1),
        d1.subset_of(d2),
        forall|n: Seq<char>, x: SchemaObject| #[trigger] ok1(n, x) ==> ok2(n, x),
    ensures
        members_lifted_to(new, old, d2, parent, ok2),
    decreases old,
{
    if old.len() > 0 {
        lemma_members_lifted_grow(new.drop_last(), old.drop_last(), d1, d2, parent, ok1, ok2);
        lemma_slot_lifted_grow(
            new.last(),
            old.last(),
            d1,
            d2,
            parent + "AllOf"@ + decimal((old.len() - 1) as nat),
            ok1,
            ok2,
        );
    }
}

proof fn lemma_members_walked_grow(
    new: Seq<RefOr<SchemaObject>>,
    old: Seq<RefOr<SchemaObject>>,
    d1: Set<Seq<char>>,
    d2: Set<Seq<char>>,
    parent: Seq<char>,
    ok1: spec_fn(Seq<char>, SchemaObject) -> bool,
    ok2: spec_fn(Seq<char>, SchemaObject) -> bool,
)
    requires
        members_walked_to(new, old, d1, parent, ok1),
        d1.subset_of(d2),
        forall|n: Seq<char>, x: SchemaObject| #[trigger] ok1(n, x) ==> ok2(n, x),
    ensures
        members_walked_to(new, old, d2, parent, ok2),
    decreases old,
{
    if old.len() > 0 {
        let vparent = variant_name_of(parent, (old.len() - 1) as nat, old.last());
        lemma_members_walked_grow(new.drop_last(), old.drop_last(), d1, d2, parent, ok1, ok2);
        assert(member_walked_to(new.last(), old.last(), d1, vparent, ok1));
        if let RefOr::Item(s) = old.last() {
            lemma_kind_lifted_grow(new.last()->Item_0.kind, s.kind, d1, d2, vparent, ok1, ok2);
        }
        assert(member_walked_to(new.last(), old.last(), d2, vparent, ok2));
    }
}

proof fn lemma_same_kind_lifted(a: SchemaForm, b: SchemaForm, old: SchemaForm, d: Set<Seq<char>>, parent: Seq<char>, ok: spec_fn(Seq<char>, SchemaObject) -> bool)
    requires
        same_kind(a, b),
        kind_lifted(b, old, d, parent, ok),
    ensures
        kind_lifted(a, old, d, parent, ok),
    decreases old,
{
    match old {
        SchemaForm::TypeForm(TypeForm::Object(o)) => {
            let p = b->TypeForm_0->Object_0;
            let q = a->TypeForm_0->Object_0;
            lemma_same_props_lifted(q.properties@, p.properties@, o.properties@, d, parent, ok);
        },
        SchemaForm::TypeForm(TypeForm::Array(x)) => {
            if let Some(bx) = x.items {
                let db = b->TypeForm_0->Array_0.items.unwrap();
                let da = a->TypeForm_0->Array_0.items.unwrap();
                lemma_same_slot_lifted(*da, *db, *bx, d, parent + "Item"@, ok);
            }
        },
        SchemaForm::AllOf(ms) => {
            lemma_same_members_lifted(a->AllOf_0@, b->AllOf_0@, ms@, d, parent, ok);
        },
        SchemaForm::AnyOf(ms) => {
            lemma_same_members_walked(a->AnyOf_0@, b->AnyOf_0@, ms@, d, parent, ok);
        },
        SchemaForm::OneOf(ms) => {
            lemma_same_members_walked(a->OneOf_0@, b->OneOf_0@, ms@, d, parent, ok);
        },
        SchemaForm::TypeForm(t) => {
            assert(b == old);
            match t {
                TypeForm::String(_) => {},
                TypeForm::Number(_) => {},
                TypeForm::Integer(_) => {},
                TypeForm::Boolean => {},
                _ => {},
            }
        },
        _ => {},
    }
}

proof fn lemma_same_slot_lifted(
    a: RefOr<SchemaObject>,
    b: RefOr<SchemaObject>,
    old: RefOr<SchemaObject>,
    d: Set<Seq<char>>,
    suggested: Seq<char>,
    ok: spec_fn(Seq<char>, SchemaObject) -> bool,
)
    requires
        same_slot(a, b),
        slot_lifted(b, old, d, suggested, ok),
    ensures
        slot_lifted(a, old, d, suggested, ok),
    decreases old,
{
    match old {
        RefOr::Reference(_) => {},
        RefOr::Item(s) => {
            if !is_complex_kind(s.kind) {
                lemma_same_kind_lifted(a->Item_0.kind, b->Item_0.kind, s.kind, d, suggested, ok);
            }
        },
    }
}

proof fn lemma_same_props_lifted(
    a: Seq<(String, RefOr<SchemaObject>)>,
    b: Seq<(String, RefOr<SchemaObject>)>,
    old: Seq<(String, RefOr<SchemaObject>)>,
    d: Set<Seq<char>>,
    parent: Seq<char>,
    ok: spec_fn(Seq<char>, SchemaObject) -> bool,
)
    requires
        same_props(a, b),
        props_lifted(b, old, d, parent, ok),
    ensures
        props_lifted(a, old, d, parent, ok),
    decreases old,
{
    if old.len() > 0 {
        lemma_same_props_lifted(a.drop_last(), b.drop_last(), old.drop_last(), d, parent, ok);
        lemma_same_slot_lifted(a.last().1, b.last().1, old.last().1, d, parent + upper_camel_case(old.last().0@), ok);
    } else {
        assert(b.len() == 0);
    }
}

proof fn lemma_same_members_lifted(
    a: Seq<RefOr<SchemaObject>>,
    b: Seq<RefOr<SchemaObject>>,
    old: Seq<RefOr<SchemaObject>>,
    d: Set<Seq<char>>,
    parent: Seq<char>,
    ok: spec_fn(Seq<char>, SchemaObject) -> bool,
)
    requires
        same_members(a, b),
        members_lifted_to(b, old, d, parent, ok),
    ensures
        members_lifted_to(a, old, d, parent, ok),
    decreases old,
{
    if old.len() > 0 {
        lemma_same_members_lifted(a.drop_last(), b.drop_last(), old.drop_last(), d, parent, ok);
        lemma_same_slot_lifted(a.last(), b.last(), old.last(), d, parent + "AllOf"@ + decimal((old.len() - 1) as nat), ok);
    } else {
        assert(b.len() == 0);
    }
}

proof fn lemma_same_members_walked(
    a: Seq<RefOr<SchemaObject>>,
    b: Seq<RefOr<SchemaObject>>,
    old: Seq<RefOr<SchemaObject>>,
    d: Set<Seq<char>>,
    parent: Seq<char>,
    ok: spec_fn(Seq<char>, SchemaObject) -> bool,
)
    requires
        same_members(a, b),
        members_walked_to(b, old, d, parent, ok),
    ensures
        members_walked_to(a, old, d, parent, ok),
    decreases old,
{
    if old.len() > 0 {
        let vparent = variant_name_of(parent, (old.len() - 1) as nat, old.last());
        lemma_same_members_walked(a.drop_last(), b.drop_last(), old.drop_last(), d, parent, ok);
        assert(member_walked_to(b.last(), old.last(), d, vparent, ok));
        assert(same_slot(a.last(), b.last()));
        if let RefOr::Item(s) = old.last() {
            assert(same_schema(a.last()->Item_0, b.last()->Item_0));
            lemma_same_kind_lifted(a.last()->Item_0.kind, b.last()->Item_0.kind, s.kind, d, vparent, ok);
        }
        assert(member_walked_to(a.last(), old.last(), d, vparent, ok));
    } else {
        assert(b.len() == 0);
    }
}

/// What a walk asks of each schema that it replaced by a reference to `n`:
/// the walk put it, as it stood, under the name `n`, which was free before
/// (`mb` is the map before the walk, `m1` the map after it).
pub open spec fn lifted_into(m1: Map<Seq<char>, SchemaObject>, mb: Map<Seq<char>, SchemaObject>) -> spec_fn(Seq<char>, SchemaObject) -> bool {
    |n: Seq<char>, x: SchemaObject| m1.contains_key(n) && m1[n] == x && !mb.contains_key(n)
}

/// The weight of a schema: the complex schemas nested in it.
pub open spec fn weight() -> spec_fn(SchemaObject) -> nat {
    |s: SchemaObject| nested(s.kind)
}

/// Nothing in `kind` is left to lift.
pub open spec fn is_flat(kind: SchemaForm) -> bool {
    nested(kind) == 0
}

proof fn lemma_props_prefix(ps: Seq<(String, RefOr<SchemaObject>)>, i: int)
    requires
        0 <= i <= ps.len(),
    ensures
        props_nested(ps.subrange(0, i)) <= props_nested(ps),
        i < ps.len() ==> props_nested(ps.subrange(0, i + 1)) == props_nested(ps.subrange(0, i))
            + slot_nested(ps[i].1),
        props_nested(ps) == 0 ==> props_nested(ps.subrange(0, i)) == 0,
    decreases ps.len(),
{
    if i < ps.len() {
        assert(ps.subrange(0, i + 1).drop_last() =~= ps.subrange(0, i));
        if i + 1 < ps.len() {
            lemma_props_prefix(ps.drop_last(), i + 1);
            assert(ps.drop_last().subrange(0, i + 1) =~= ps.subrange(0, i + 1));
        } else {
            assert(ps.subrange(0, i + 1) =~= ps);
        }
    } else {
        assert(ps.subrange(0, i) =~= ps);
    }
}

proof fn lemma_lifted_prefix(ms: Seq<RefOr<SchemaObject>>, i: int)
    requires
        0 <= i <= ms.len(),
    ensures
        members_lifted(ms.subrange(0, i)) <= members_lifted(ms),
        i < ms.len() ==> members_lifted(ms.subrange(0, i + 1)) == members_lifted(ms.subrange(0, i))
            + slot_nested(ms[i]),
    decreases ms.len(),
{
    if i < ms.len() {
        assert(ms.subrange(0, i + 1).drop_last() =~= ms.subrange(0, i));
        if i + 1 < ms.len() {
            lemma_lifted_prefix(ms.drop_last(), i + 1);
            assert(ms.drop_last().subrange(0, i + 1) =~= ms.subrange(0, i + 1));
        } else {
            assert(ms.subrange(0, i + 1) =~= ms);
        }
    } else {
        assert(ms.subrange(0, i) =~= ms);
    }
}

proof fn lemma_walked_prefix(ms: Seq<RefOr<SchemaObject>>, i: int)
    requires
        0 <= i <= ms.len(),
    ensures
        members_walked(ms.subrange(0, i)) <= members_walked(ms),
        i < ms.len() ==> members_walked(ms.subrange(0, i + 1)) == members_walked(ms.subrange(0, i))
            + match ms[i] {
            RefOr::Item(s) => nested(s.kind),
            _ => 0,
        },
    decreases ms.len(),
{
    if i < ms.len() {
        assert(ms.subrange(0, i + 1).drop_last() =~= ms.subrange(0, i));
        if i + 1 < ms.len() {
            lemma_walked_prefix(ms.drop_last(), i + 1);
            assert(ms.drop_last().subrange(0, i + 1) =~= ms.subrange(0, i + 1));
        } else {
            assert(ms.subrange(0, i + 1) =~= ms);
        }
    } else {
        assert(ms.subrange(0, i) =~= ms);
    }
}

/// What lifting does to the schema map and the queue: it adds schemas
/// under fresh names, in the order in which the names join the queue, and
/// the weight it takes from the lifted-from schema (`n`) is that of the
/// added schemas plus one for each.
pub open spec fn lifted(
    m0: SchemaMap,
    m1: SchemaMap,
    q0: Seq<String>,
    q1: Seq<String>,
    n: nat,
) -> bool {
    let added = q1.subrange(q0.len() as int, q1.len() as int);
    &&& m1.wf()
    &&& q0.len() <= q1.len()
    &&& q1.subrange(0, q0.len() as int) == q0
    &&& added.len() <= n
    &&& forall|k: Seq<char>| #[trigger] m0@.contains_key(k) ==> m1@.contains_key(k) && m1@[k] == m0@[k]
    &&& forall|j: int| 0 <= j < added.len() ==> !m0@.contains_key(#[trigger] added[j]@)
    &&& forall|j: int| 0 <= j < added.len() ==> m1@.contains_key(#[trigger] added[j]@)
    &&& forall|j: int, l: int| 0 <= j < l < added.len() ==> #[trigger] added[j]@ != #[trigger] added[l]@
    &&& forall|k: Seq<char>|
        #[trigger] m1@.contains_key(k) ==> m0@.contains_key(k) || exists|j: int|
            0 <= j < added.len() && #[trigger] added[j]@ == k
    &&& forall|k: Seq<char>| #[trigger] m1@.contains_key(k) && !m0@.contains_key(k) ==> is_complex_kind(m1@[k].kind)
    &&& m1.entries().len() == m0.entries().len() + added.len()
    &&& m1.total(weight()) + added.len() == m0.total(weight()) + n
}

proof fn lemma_lifted_refl(m: SchemaMap, q: Seq<String>)
    requires
        m.wf(),
    ensures
        lifted(m, m, q, q, 0),
{
    assert(q.subrange(0, q.len() as int) =~= q);
    assert(q.subrange(q.len() as int, q.len() as int).len() == 0);
}

proof fn lemma_lifted_trans(
    m0: SchemaMap,
    m1: SchemaMap,
    m2: SchemaMap,
    q0: Seq<String>,
    q1: Seq<String>,
    q2: Seq<String>,
    n1: nat,
    n2: nat,
)
    requires
        lifted(m0, m1, q0, q1, n1),
        lifted(m1, m2, q1, q2, n2),
    ensures
        lifted(m0, m2, q0, q2, n1 + n2),
{
    let a1 = q1.subrange(q0.len() as int, q1.len() as int);
    let a2 = q2.subrange(q1.len() as int, q2.len() as int);
    let a = q2.subrange(q0.len() as int, q2.len() as int);
    assert(q2.subrange(0, q0.len() as int) =~= q2.subrange(0, q1.len() as int).subrange(
        0,
        q0.len() as int,
    ));
    assert(a =~= a1 + a2) by {
        assert forall|j: int| 0 <= j < a.len() implies a[j] == (a1 + a2)[j] by {
            if j < a1.len() {
                assert(q2.subrange(0, q1.len() as int)[q0.len() + j] == q1[q0.len() + j]);
            }
        }
    }
    assert forall|j: int| 0 <= j < a.len() implies !m0@.contains_key(#[trigger] a[j]@) by {
        if j >= a1.len() {
            assert(a[j] == a2[j - a1.len()]);
        }
    }
    assert forall|j: int| 0 <= j < a.len() implies m2@.contains_key(#[trigger] a[j]@) by {
        if j < a1.len() {
            assert(a[j] == a1[j]);
        } else {
            assert(a[j] == a2[j - a1.len()]);
        }
    }
    assert forall|j: int, l: int| 0 <= j < l < a.len() implies #[trigger] a[j]@ != #[trigger] a[l]@ by {
        if l < a1.len() {
            assert(a[j] == a1[j] && a[l] == a1[l]);
        } else if j >= a1.len() {
            assert(a[j] == a2[j - a1.len()] && a[l] == a2[l - a1.len()]);
        } else {
            assert(a[j] == a1[j] && a[l] == a2[l - a1.len()]);
            assert(m1@.contains_key(a1[j]@));
        }
    }
    assert forall|k: Seq<char>| #[trigger] m2@.contains_key(k) implies m0@.contains_key(k) || exists|
        j: int,
    |
        0 <= j < a.len() && #[trigger] a[j]@ == k by {
        if !m1@.contains_key(k) {
            let j = choose|j: int| 0 <= j < a2.len() && #[trigger] a2[j]@ == k;
            assert(a[a1.len() + j] == a2[j]);
        } else if !m0@.contains_key(k) {
            let j = choose|j: int| 0 <= j < a1.len() && #[trigger] a1[j]@ == k;
            assert(a[j] == a1[j]);
        }
    }
}

/// Whether `kind` is complex.
pub fn is_complex(kind: &SchemaForm) -> (b: bool)
    ensures
        b == is_complex_kind(*kind),
{
    match kind {
        SchemaForm::TypeForm(TypeForm::Object(o)) => o.properties.len() > 0,
        SchemaForm::TypeForm(TypeForm::String(s)) => s.enumeration.len() > 0,
        SchemaForm::TypeForm(_) => false,
        SchemaForm::AllOf(_) | SchemaForm::AnyOf(_) | SchemaForm::OneOf(_) => true,
        _ => false,
    }
}

/// The name that a title gives, if it is not blank: the title, trimmed, in
/// upper camel case.
pub open spec fn title_name(title: Option<String>) -> Option<Seq<char>> {
    match title {
        Some(t) => if trimmed(t@).len() > 0 {
            Some(upper_camel_case(trimmed(t@)))
        } else {
            None
        },
        None => None,
    }
}

pub(crate) fn name_from_title(title: &Option<String>) -> (r: Option<String>)
    ensures
        match r {
            Some(n) => title_name(*title) == Some(n@),
            None => title_name(*title).is_none(),
        },
{
    match title {
        Some(t) => {
            let tr = trim(t.as_str());
            if tr.unicode_len() > 0 {
                Some(to_upper_camel_case(tr.as_str()))
            } else {
                None
            }
        },
        None => None,
    }
}

/// The name of the `i`-th member of an `anyOf` or `oneOf` of `parent`.
pub open spec fn variant_name_of(parent: Seq<char>, i: nat, slot: RefOr<SchemaObject>) -> Seq<char> {
    match slot {
        RefOr::Item(s) => match title_name(s.title) {
            Some(n) => n,
            None => parent + "Variant"@ + decimal(i),
        },
        _ => parent + "Variant"@ + decimal(i),
    }
}

/// The name of the `i`-th member of an `anyOf` or `oneOf` of `parent`: its
/// title where it has one, else `{parent}Variant{i}`.
fn variant_name(parent: &str, i: usize, slot: &RefOr<SchemaObject>) -> (r: String)
    ensures
        r@ == variant_name_of(parent@, i as nat, *slot),
{
    if let RefOr::Item(s) = slot {
        if let Some(n) = name_from_title(&s.title) {
            return n;
        }
    }
    let mut r = string_from(parent);
    push_str(&mut r, "Variant");
    push_decimal(&mut r, i as u64);
    assert(r@ =~= parent@ + "Variant"@ + decimal(i as nat));
    r
}

/// The name a lifted schema asks for: its title where it has one, else the
/// name suggested by where it stood.
pub open spec fn preferred_name_of(suggested: Seq<char>, item: SchemaObject) -> Seq<char> {
    match title_name(item.title) {
        Some(n) => n,
        None => suggested,
    }
}

fn preferred_name(suggested: &str, item: &SchemaObject) -> (r: String)
    ensures
        r@ == preferred_name_of(suggested@, *item),
{
    if let Some(n) = name_from_title(&item.title) {
        return n;
    }
    string_from(suggested)
}

/// The `i`-th numbered form of a name.
pub open spec fn numbered(s: Seq<char>, i: nat) -> Seq<char> {
    s + decimal(i)
}

proof fn lemma_decimal_len(n: nat)
    ensures
        decimal(n).len() >= 1,
        n < 10 <==> decimal(n).len() == 1,
    decreases n,
{
    if n >= 10 {
        lemma_decimal_len(n / 10);
    }
}

proof fn lemma_digit(a: nat, b: nat)
    requires
        a < 10,
        b < 10,
        digit(a) == digit(b),
    ensures
        a == b,
{
    assert(digit(a) as u32 == a + 48);
    assert(digit(b) as u32 == b + 48);
}

/// Different numbers have different numerals.
proof fn lemma_decimal_injective(a: nat, b: nat)
    requires
        decimal(a) == decimal(b),
    ensures
        a == b,
    decreases a,
{
    lemma_decimal_len(a);
    lemma_decimal_len(b);
    if a < 10 {
        assert(b < 10);
        assert(decimal(a)[0] == digit(a));
        assert(decimal(b)[0] == digit(b));
        lemma_digit(a, b);
    } else {
        assert(decimal(a).drop_last() == decimal(a / 10));
        assert(decimal(b).drop_last() == decimal(b / 10));
        assert(decimal(a).last() == digit(a % 10));
        assert(decimal(b).last() == digit(b % 10));
        lemma_digit(a % 10, b % 10);
        lemma_decimal_injective(a / 10, b / 10);
    }
}

proof fn lemma_numbered_injective(s: Seq<char>, a: nat, b: nat)
    requires
        numbered(s, a) == numbered(s, b),
    ensures
        a == b,
{
    assert(numbered(s, a).subrange(s.len() as int, numbered(s, a).len() as int) =~= decimal(a));
    assert(numbered(s, b).subrange(s.len() as int, numbered(s, b).len() as int) =~= decimal(b));
    lemma_decimal_injective(a, b);
}

/// Among fewer names than there are numbers in `2..u32::MAX`, some
/// numbered form of `s` is free.
proof fn lemma_some_number_free(m: SchemaMap, s: Seq<char>)
    requires
        m.wf(),
        m.entries().len() < name_bound(),
    ensures
        exists|i: nat| 2 <= i < u32::MAX && !m@.contains_key(#[trigger] numbered(s, i)),
{
    m.lemma_entries();
    if forall|i: nat| 2 <= i < u32::MAX ==> m@.contains_key(#[trigger] numbered(s, i)) {
        let r = set_int_range(2, u32::MAX as int);
        lemma_int_range(2, u32::MAX as int);
        let f = |i: int| numbered(s, i as nat);
        let y = r.map(f);
        assert(vstd::relations::injective_on(f, r)) by {
            assert forall|a: int, b: int| r.contains(a) && r.contains(b) && #[trigger] f(a) == #[trigger] f(b) implies a == b by {
                lemma_numbered_injective(s, a as nat, b as nat);
            }
        }
        lemma_map_size(r, y, f);
        assert(y.subset_of(m@.dom())) by {
            assert forall|x: Seq<char>| y.contains(x) implies m@.dom().contains(x) by {
                let i = choose|i: int| r.contains(i) && f(i) == x;
                assert(m@.contains_key(numbered(s, i as nat)));
            }
        }
        lemma_len_subset(y, m@.dom());
    }
}

/// A name for a schema that no schema has yet: `suggested` where it is
/// free, else the first free one of `{suggested}2`, `{suggested}3`, ....
fn unique_name(suggested: &str, schemas: &SchemaMap) -> (r: String)
    requires
        schemas.wf(),
        schemas.entries().len() < name_bound(),
    ensures
        is_unique_name_in(schemas@.dom(), suggested@, r@),
{
    if !schemas.contains_key(suggested) {
        return string_from(suggested);
    }
    proof {
        lemma_some_number_free(*schemas, suggested@);
    }
    let mut i: u32 = 2;
    while i < u32::MAX
        invariant
            2 <= i <= u32::MAX,
            schemas.wf(),
            schemas@.contains_key(suggested@),
            forall|j: nat| 2 <= j < i ==> schemas@.contains_key(#[trigger] numbered(suggested@, j)),
            exists|k: nat| 2 <= k < u32::MAX && !schemas@.contains_key(#[trigger] numbered(suggested@, k)),
        decreases u32::MAX - i,
    {
        let mut candidate = string_from(suggested);
        push_decimal(&mut candidate, i as u64);
        if !schemas.contains_key(candidate.as_str()) {
            assert(is_unique_name_in(schemas@.dom(), suggested@, candidate@)) by {
                assert(candidate@ == numbered(suggested@, i as nat));
            }
            return candidate;
        }
        assert(candidate@ == numbered(suggested@, i as nat));
        i = i + 1;
    }
    proof {
        let k = choose|k: nat| 2 <= k < u32::MAX && !schemas@.contains_key(#[trigger] numbered(suggested@, k));
        assert(schemas@.contains_key(numbered(suggested@, k)));
    }
    string_from(suggested)
}

/// Lifts the complex schema in `slot` out under a fresh name (the one it
/// asks for, made unique) and puts a reference to it in its place, or, if
/// the schema there is not complex, lifts what is nested in it.
fn lift_or_recurse(
    suggested: &str,
    slot: RefOr<SchemaObject>,
    schemas: &mut SchemaMap,
    queue: &mut Vec<String>,
) -> (r: RefOr<SchemaObject>)
    requires
        old(schemas).wf(),
        old(schemas).entries().len() + slot_nested(slot) < name_bound(),
    ensures
        lifted(*old(schemas), *final(schemas), old(queue)@, final(queue)@, slot_nested(slot)),
        slot_nested(r) == 0,
        slot_lifted(r, slot, final(schemas)@.dom(), suggested@, lifted_into(final(schemas)@, old(schemas)@)),
        added_within(old(schemas)@, final(schemas)@, slot_targets(r, slot)),
        fresh_within(old(schemas)@, final(schemas)@, slot_targets(r, slot)),
        distinct_targets(slot_targets(r, slot)),
        slot_nested(slot) == 0 ==> same_slot(r, slot) && final(schemas)@ == old(schemas)@
            && final(queue)@ == old(queue)@,
    decreases slot, 0nat,
{
    let ghost m0 = *schemas;
    let ghost q0 = queue@;
    let ghost gs = slot;
    let ghost sug0 = suggested@;
    match slot {
        RefOr::Reference(reference) => {
            proof {
                lemma_lifted_refl(m0, q0);
                assert(slot_nested(RefOr::<SchemaObject>::Reference(reference)) == 0);
                assert(slot_lifted(
                    RefOr::<SchemaObject>::Reference(reference),
                    gs,
                    schemas@.dom(),
                    suggested@,
                    lifted_into(schemas@, m0@),
                ));
            }
            RefOr::Reference(reference)
        },
        RefOr::Item(item) => {
            if is_complex(&item.kind) {
                let suggested = preferred_name(suggested, &item);
                let name = unique_name(suggested.as_str(), schemas);
                let mut reference = string_from("#/components/schemas/");
                push_str(&mut reference, name.as_str());
                let ghost w = weight();
                let ghost it = item;
                let ghost nm = name@;
                schemas.insert(name.clone(), item);
                queue.push(name);
                proof {
                    let q1 = queue@;
                    let added = q1.subrange(q0.len() as int, q1.len() as int);
                    assert(added =~= seq![q1.last()]);
                    assert(q1.subrange(0, q0.len() as int) =~= q0);
                    assert(w(it) == nested(it.kind));
                    assert forall|k: Seq<char>| #[trigger] schemas@.contains_key(k) implies m0@.contains_key(
                        k,
                    ) || exists|j: int| 0 <= j < added.len() && #[trigger] added[j]@ == k by {
                        if !m0@.contains_key(k) {
                            assert(added[0]@ == k);
                        }
                    }
                }
                assert(slot_nested(RefOr::<SchemaObject>::Reference(reference)) == 0);
                assert(schemas@.dom().contains(nm) && reference@ == schema_ref(nm));
                assert(m0@.dom().subset_of(schemas@.dom()));
                assert(named_uniquely(schemas@.dom(), preferred_name_of(sug0, it), nm));
                assert(lifted_into(schemas@, m0@)(nm, it));
                proof {
                    lemma_ref_target(nm);
                }
                assert(slot_targets(RefOr::<SchemaObject>::Reference(reference), gs) == Multiset::singleton(nm));
                assert(slot_targets(RefOr::<SchemaObject>::Reference(reference), gs).contains(nm));
                assert forall|k: Seq<char>| #[trigger] schemas@.contains_key(k) && !m0@.contains_key(k) implies slot_targets(
                    RefOr::<SchemaObject>::Reference(reference),
                    gs,
                ).contains(k) by {
                    assert(k == nm);
                }
                assert forall|n: Seq<char>| #[trigger] slot_targets(RefOr::<SchemaObject>::Reference(reference), gs).contains(
                    n,
                ) implies schemas@.contains_key(n) && !m0@.contains_key(n) by {
                    lemma_ref_target(nm);
                }
                RefOr::Reference(reference)
            } else {
                proof {
                    assert(decreases_to!(gs => gs->Item_0));
                    assert(decreases_to!(item => item.kind));
                }
                let SchemaObject { title, description, nullable, kind } = item;
                let kind = walk(suggested, kind, schemas, queue);
                RefOr::Item(SchemaObject { title, description, nullable, kind })
            }
        },
    }
}

/// `lift_or_recurse` for a boxed slot.
fn lift_or_recurse_boxed(
    suggested: &str,
    slot: Box<RefOr<SchemaObject>>,
    schemas: &mut SchemaMap,
    queue: &mut Vec<String>,
) -> (r: Box<RefOr<SchemaObject>>)
    requires
        old(schemas).wf(),
        old(schemas).entries().len() + slot_nested(*slot) < name_bound(),
    ensures
        lifted(*old(schemas), *final(schemas), old(queue)@, final(queue)@, slot_nested(*slot)),
        slot_nested(*r) == 0,
        slot_lifted(*r, *slot, final(schemas)@.dom(), suggested@, lifted_into(final(schemas)@, old(schemas)@)),
        added_within(old(schemas)@, final(schemas)@, slot_targets(*r, *slot)),
        fresh_within(old(schemas)@, final(schemas)@, slot_targets(*r, *slot)),
        distinct_targets(slot_targets(*r, *slot)),
        slot_nested(*slot) == 0 ==> same_slot(*r, *slot) && final(schemas)@ == old(schemas)@
            && final(queue)@ == old(queue)@,
    decreases slot, 1nat,
{
    Box::new(lift_or_recurse(suggested, *slot, schemas, queue))
}

/// Lifts what is nested in a type: in the properties of an object (each
/// suggested the name `{parent}{Property}`) and in the items of an array
/// (suggested `{parent}Item`).
#[verifier::loop_isolation(false)]
fn walk_type(parent: &str, t: TypeForm, schemas: &mut SchemaMap, queue: &mut Vec<String>) -> (r: TypeForm)
    requires
        old(schemas).wf(),
        old(schemas).entries().len() + nested(SchemaForm::TypeForm(t)) < name_bound(),
    ensures
        lifted(
            *old(schemas),
            *final(schemas),
            old(queue)@,
            final(queue)@,
            nested(SchemaForm::TypeForm(t)),
        ),
        nested(SchemaForm::TypeForm(r)) == 0,
        is_complex_kind(SchemaForm::TypeForm(r)) == is_complex_kind(SchemaForm::TypeForm(t)),
        kind_lifted(
            SchemaForm::TypeForm(r),
            SchemaForm::TypeForm(t),
            final(schemas)@.dom(),
            parent@,
            lifted_into(final(schemas)@, old(schemas)@),
        ),
        added_within(
            old(schemas)@,
            final(schemas)@,
            kind_targets(SchemaForm::TypeForm(r), SchemaForm::TypeForm(t)),
        ),
        fresh_within(
            old(schemas)@,
            final(schemas)@,
            kind_targets(SchemaForm::TypeForm(r), SchemaForm::TypeForm(t)),
        ),
        distinct_targets(kind_targets(SchemaForm::TypeForm(r), SchemaForm::TypeForm(t))),
        nested(SchemaForm::TypeForm(t)) == 0 ==> same_type(r, t) && final(schemas)@ == old(schemas)@
            && final(queue)@ == old(queue)@,
    decreases t, 2nat,
{
    let ghost m0 = *schemas;
    let ghost q0 = queue@;
    let ghost gt = t;
    match t {
        TypeForm::Object(o) => {
            let ghost go = o;
            assert(decreases_to!(gt => gt->Object_0));
            assert(decreases_to!(go => go.properties));
            assert(decreases_to!(go.properties => go.properties@));
            let ObjectForm { properties, required, additional_properties } = o;
            let ghost all = properties@;
            let mut props = properties;
            let n = props.len();
            let mut done: Vec<(String, RefOr<SchemaObject>)> = Vec::new();
            let mut i: usize = 0;
            proof {
                lemma_lifted_refl(m0, q0);
                assert(all.subrange(0, 0) =~= Seq::<(String, RefOr<SchemaObject>)>::empty());
            }
            while props.len() > 0
                invariant
                    i + props@.len() == all.len(),
                    all.len() == n,
                    props@ == all.subrange(i as int, all.len() as int),
                    done@.len() == i,
                    forall|j: int| 0 <= j < i ==> (#[trigger] done@[j]).0 == all[j].0,
                    props_nested(done@) == 0,
                    props_lifted(done@, all.subrange(0, i as int), schemas@.dom(), parent@, lifted_into(schemas@, m0@)),
                    added_within(m0@, schemas@, props_targets(done@, all.subrange(0, i as int))),
                    fresh_within(m0@, schemas@, props_targets(done@, all.subrange(0, i as int))),
                    distinct_targets(props_targets(done@, all.subrange(0, i as int))),
                    lifted(m0, *schemas, q0, queue@, props_nested(all.subrange(0, i as int))),
                    m0.wf(),
                    m0.entries().len() + props_nested(all) < name_bound(),
                    props_nested(all) == 0 ==> same_props(done@, all.subrange(0, i as int))
                        && schemas@ == m0@ && queue@ == q0,
                    decreases_to!(gt => all),
                decreases props@.len(),
            {
                let (prop_name, slot) = props.remove(0);
                proof {
                    assert(all[i as int] == (prop_name, slot));
                    lemma_props_prefix(all, i as int);
                    lemma_props_prefix(all, i + 1);
                    assert(decreases_to!(all => all[i as int]));
                    assert(decreases_to!(all[i as int] => all[i as int].1));
                    assert(decreases_to!(gt => slot));
                }
                let ghost m1 = *schemas;
                let ghost q1 = queue@;
                let mut suggested = string_from(parent);
                let pascal = to_upper_camel_case(prop_name.as_str());
                push_str(&mut suggested, pascal.as_str());
                let slot2 = lift_or_recurse(suggested.as_str(), slot, schemas, queue);
                proof {
                    lemma_lifted_trans(
                        m0,
                        m1,
                        *schemas,
                        q0,
                        q1,
                        queue@,
                        props_nested(all.subrange(0, i as int)),
                        slot_nested(all[i as int].1),
                    );
                }
                let ghost d0 = done@;
                let ghost pn = prop_name;
                proof {
                    lemma_props_lifted_grow(
                        d0,
                        all.subrange(0, i as int),
                        m1@.dom(),
                        schemas@.dom(),
                        parent@,
                        lifted_into(m1@, m0@),
                        lifted_into(schemas@, m0@),
                    );
                    lemma_slot_lifted_grow(
                        slot2,
                        all[i as int].1,
                        schemas@.dom(),
                        schemas@.dom(),
                        parent@ + upper_camel_case(all[i as int].0@),
                        lifted_into(schemas@, m1@),
                        lifted_into(schemas@, m0@),
                    );
                }
                done.push((prop_name, slot2));
                proof {
                    assert(done@.drop_last() =~= d0);
                    assert(all.subrange(0, i + 1).drop_last() =~= all.subrange(0, i as int));
                    assert(all.subrange(0, i + 1).last() == all[i as int]);
                    assert(props_lifted(done@, all.subrange(0, i + 1), schemas@.dom(), parent@, lifted_into(schemas@, m0@)));
                    lemma_added_within_trans(
                        m0@,
                        m1@,
                        schemas@,
                        props_targets(d0, all.subrange(0, i as int)),
                        slot_targets(slot2, all[i as int].1),
                    );
                    lemma_fresh_within_trans(m0@, m1@, schemas@, props_targets(d0, all.subrange(0, i as int)), slot_targets(slot2, all[i as int].1)); lemma_distinct_add(props_targets(d0, all.subrange(0, i as int)), slot_targets(slot2, all[i as int].1), m1@);
                    assert(props_targets(done@, all.subrange(0, i + 1)) == props_targets(d0, all.subrange(0, i as int)).add(
                        slot_targets(slot2, all[i as int].1),
                    ));
                    if props_nested(all) == 0 {
                        assert(all.subrange(0, i + 1).drop_last() =~= all.subrange(0, i as int));
                    }
                }
                i = i + 1;
                assert(props@ =~= all.subrange(i as int, all.len() as int));
            }
            assert(all.subrange(0, all.len() as int) =~= all);
            assert(all.subrange(0, 0) =~= Seq::<(String, RefOr<SchemaObject>)>::empty());
            TypeForm::Object(ObjectForm { properties: done, required, additional_properties })
        },
        TypeForm::Array(a) => {
            let ArrayType { items } = a;
            match items {
                Some(b) => {
                    let mut suggested = string_from(parent);
                    push_str(&mut suggested, "Item");
                    let b2 = lift_or_recurse_boxed(suggested.as_str(), b, schemas, queue);
                    TypeForm::Array(ArrayType { items: Some(b2) })
                },
                None => {
                    proof {
                        lemma_lifted_refl(m0, q0);
                    }
                    TypeForm::Array(ArrayType { items: None })
                },
            }
        },
        other => {
            proof {
                lemma_lifted_refl(m0, q0);
            }
            other
        },
    }
}

/// Lifts what is nested in a schema kind: see `walk_type` for types; the
/// members of an `allOf` lift (suggested `{parent}AllOf{i}`), those of an
/// `anyOf` or `oneOf` stay in place and what is nested in them lifts.
#[verifier::loop_isolation(false)]
fn walk(parent: &str, kind: SchemaForm, schemas: &mut SchemaMap, queue: &mut Vec<String>) -> (r:
    SchemaForm)
    requires
        old(schemas).wf(),
        old(schemas).entries().len() + nested(kind) < name_bound(),
    ensures
        lifted(*old(schemas), *final(schemas), old(queue)@, final(queue)@, nested(kind)),
        nested(r) == 0,
        is_complex_kind(r) == is_complex_kind(kind),
        kind_lifted(r, kind, final(schemas)@.dom(), parent@, lifted_into(final(schemas)@, old(schemas)@)),
        added_within(old(schemas)@, final(schemas)@, kind_targets(r, kind)),
        fresh_within(old(schemas)@, final(schemas)@, kind_targets(r, kind)),
        distinct_targets(kind_targets(r, kind)),
        nested(kind) == 0 ==> same_kind(r, kind) && final(schemas)@ == old(schemas)@
            && final(queue)@ == old(queue)@,
    decreases kind, 3nat,
{
    let ghost m0 = *schemas;
    let ghost q0 = queue@;
    let ghost gk = kind;
    match kind {
        SchemaForm::TypeForm(t) => SchemaForm::TypeForm(walk_type(parent, t, schemas, queue)),
        SchemaForm::AllOf(members) => {
            let ghost all = members@;
            let ghost gm = members;
            assert(decreases_to!(gk => gk->AllOf_0));
            assert(decreases_to!(gm => gm@));
            let mut ms = members;
            let n = ms.len();
            let mut done: Vec<RefOr<SchemaObject>> = Vec::new();
            let mut i: usize = 0;
            proof {
                lemma_lifted_refl(m0, q0);
                assert(all.subrange(0, 0) =~= Seq::<RefOr<SchemaObject>>::empty());
            }
            while ms.len() > 0
                invariant
                    i + ms@.len() == all.len(),
                    all.len() == n,
                    ms@ == all.subrange(i as int, all.len() as int),
                    done@.len() == i,
                    members_lifted(done@) == 0,
                    members_lifted_to(done@, all.subrange(0, i as int), schemas@.dom(), parent@, lifted_into(schemas@, m0@)),
                    added_within(m0@, schemas@, members_targets(done@, all.subrange(0, i as int))),
                    fresh_within(m0@, schemas@, members_targets(done@, all.subrange(0, i as int))),
                    distinct_targets(members_targets(done@, all.subrange(0, i as int))),
                    lifted(m0, *schemas, q0, queue@, members_lifted(all.subrange(0, i as int))),
                    m0.wf(),
                    m0.entries().len() + members_lifted(all) < name_bound(),
                    members_lifted(all) == 0 ==> same_members(done@, all.subrange(0, i as int))
                        && schemas@ == m0@ && queue@ == q0,
                    decreases_to!(gk => all),
                decreases ms@.len(),
            {
                let m = ms.remove(0);
                proof {
                    assert(all[i as int] == m);
                    lemma_lifted_prefix(all, i as int);
                    lemma_lifted_prefix(all, i + 1);
                    if members_lifted(all) == 0 {
                        assert(slot_nested(m) == 0);
                    }
                    assert(decreases_to!(all => all[i as int]));
                    assert(decreases_to!(gk => m));
                }
                let ghost m1 = *schemas;
                let ghost q1 = queue@;
                let mut suggested = string_from(parent);
                push_str(&mut suggested, "AllOf");
                push_decimal(&mut suggested, i as u64);
                let m2 = lift_or_recurse(suggested.as_str(), m, schemas, queue);
                proof {
                    lemma_lifted_trans(
                        m0,
                        m1,
                        *schemas,
                        q0,
                        q1,
                        queue@,
                        members_lifted(all.subrange(0, i as int)),
                        slot_nested(all[i as int]),
                    );
                }
                let ghost d0 = done@;
                proof {
                    lemma_members_lifted_grow(
                        d0,
                        all.subrange(0, i as int),
                        m1@.dom(),
                        schemas@.dom(),
                        parent@,
                        lifted_into(m1@, m0@),
                        lifted_into(schemas@, m0@),
                    );
                    lemma_slot_lifted_grow(
                        m2,
                        all[i as int],
                        schemas@.dom(),
                        schemas@.dom(),
                        parent@ + "AllOf"@ + decimal(i as nat),
                        lifted_into(schemas@, m1@),
                        lifted_into(schemas@, m0@),
                    );
                }
                done.push(m2);
                proof {
                    assert(done@.drop_last() =~= d0);
                    assert(all.subrange(0, i + 1).drop_last() =~= all.subrange(0, i as int));
                    assert(all.subrange(0, i + 1).last() == all[i as int]);
                    assert(members_lifted_to(done@, all.subrange(0, i + 1), schemas@.dom(), parent@, lifted_into(schemas@, m0@)));
                    lemma_added_within_trans(
                        m0@,
                        m1@,
                        schemas@,
                        members_targets(d0, all.subrange(0, i as int)),
                        slot_targets(m2, all[i as int]),
                    );
                    lemma_fresh_within_trans(m0@, m1@, schemas@, members_targets(d0, all.subrange(0, i as int)), slot_targets(m2, all[i as int])); lemma_distinct_add(members_targets(d0, all.subrange(0, i as int)), slot_targets(m2, all[i as int]), m1@);
                    assert(members_targets(done@, all.subrange(0, i + 1)) == members_targets(d0, all.subrange(0, i as int)).add(
                        slot_targets(m2, all[i as int]),
                    ));
                    if members_lifted(all) == 0 {
                        assert(all.subrange(0, i + 1).drop_last() =~= all.subrange(0, i as int));
                    }
                }
                i = i + 1;
                assert(ms@ =~= all.subrange(i as int, all.len() as int));
            }
            assert(all.subrange(0, all.len() as int) =~= all);
            SchemaForm::AllOf(done)
        },
        SchemaForm::AnyOf(members) => SchemaForm::AnyOf(walk_members(parent, members, schemas, queue)),
        SchemaForm::OneOf(members) => SchemaForm::OneOf(walk_members(parent, members, schemas, queue)),
        other => {
            proof {
                lemma_lifted_refl(m0, q0);
            }
            other
        },
    }
}

/// The members of an `anyOf` or `oneOf`: each stays in place, named by
/// `variant_name`, and what is nested in it lifts.
#[verifier::loop_isolation(false)]
fn walk_members(
    parent: &str,
    members: Vec<RefOr<SchemaObject>>,
    schemas: &mut SchemaMap,
    queue: &mut Vec<String>,
) -> (r: Vec<RefOr<SchemaObject>>)
    requires
        old(schemas).wf(),
        old(schemas).entries().len() + members_walked(members@) < name_bound(),
    ensures
        lifted(*old(schemas), *final(schemas), old(queue)@, final(queue)@, members_walked(members@)),
        members_walked(r@) == 0,
        members_walked_to(r@, members@, final(schemas)@.dom(), parent@, lifted_into(final(schemas)@, old(schemas)@)),
        added_within(old(schemas)@, final(schemas)@, walked_targets(r@, members@)),
        fresh_within(old(schemas)@, final(schemas)@, walked_targets(r@, members@)),
        distinct_targets(walked_targets(r@, members@)),
        members_walked(members@) == 0 ==> same_members(r@, members@) && final(schemas)@ == old(
            schemas,
        )@ && final(queue)@ == old(queue)@,
    decreases members, 4nat,
{
    let ghost m0 = *schemas;
    let ghost q0 = queue@;
    let ghost all = members@;
    let ghost gm = members;
    assert(decreases_to!(gm => gm@));
    let mut ms = members;
    let n = ms.len();
    let mut done: Vec<RefOr<SchemaObject>> = Vec::new();
    let mut i: usize = 0;
    proof {
        lemma_lifted_refl(m0, q0);
        assert(all.subrange(0, 0) =~= Seq::<RefOr<SchemaObject>>::empty());
    }
    while ms.len() > 0
        invariant
            i + ms@.len() == all.len(),
            all.len() == n,
            ms@ == all.subrange(i as int, all.len() as int),
            done@.len() == i,
            members_walked(done@) == 0,
            members_walked_to(done@, all.subrange(0, i as int), schemas@.dom(), parent@, lifted_into(schemas@, m0@)),
            added_within(m0@, schemas@, walked_targets(done@, all.subrange(0, i as int))),
                    fresh_within(m0@, schemas@, walked_targets(done@, all.subrange(0, i as int))),
                    distinct_targets(walked_targets(done@, all.subrange(0, i as int))),
            lifted(m0, *schemas, q0, queue@, members_walked(all.subrange(0, i as int))),
            m0.wf(),
            m0.entries().len() + members_walked(all) < name_bound(),
            members_walked(all) == 0 ==> same_members(done@, all.subrange(0, i as int)) && schemas@
                == m0@ && queue@ == q0,
            decreases_to!(gm => all),
        decreases ms@.len(),
    {
        let m = ms.remove(0);
        let ghost gmem = m;
        proof {
            assert(all[i as int] == m);
            lemma_walked_prefix(all, i as int);
            lemma_walked_prefix(all, i + 1);
            assert(decreases_to!(all => all[i as int]));
        }
        let ghost m1 = *schemas;
        let ghost q1 = queue@;
        let suggested = variant_name(parent, i, &m);
        let m2 = match m {
            RefOr::Item(s) => {
                proof {
                    assert(decreases_to!(gmem => gmem->Item_0));
                    assert(decreases_to!(s => s.kind));
                    assert(decreases_to!(gm => s.kind));
                }
                let SchemaObject { title, description, nullable, kind } = s;
                let ghost k0 = kind;
                let kind = walk(suggested.as_str(), kind, schemas, queue);
                let res = RefOr::Item(SchemaObject { title, description, nullable, kind });
                proof {
                    if nested(k0) == 0 {
                        assert(same_slot(res, gmem));
                    }
                    lemma_kind_lifted_grow(
                        kind,
                        k0,
                        schemas@.dom(),
                        schemas@.dom(),
                        suggested@,
                        lifted_into(schemas@, m1@),
                        lifted_into(schemas@, m0@),
                    );
                }
                res
            },
            RefOr::Reference(r) => {
                proof {
                    lemma_lifted_refl(m1, q1);
                }
                RefOr::Reference(r)
            },
        };
        proof {
            if members_walked(all) == 0 {
                assert(same_slot(m2, all[i as int]));
            }
        }
        proof {
            lemma_lifted_trans(
                m0,
                m1,
                *schemas,
                q0,
                q1,
                queue@,
                members_walked(all.subrange(0, i as int)),
                match gmem {
                    RefOr::Item(s) => nested(s.kind),
                    _ => 0,
                },
            );
        }
        let ghost d0 = done@;
        proof {
            lemma_members_walked_grow(
                d0,
                all.subrange(0, i as int),
                m1@.dom(),
                schemas@.dom(),
                parent@,
                lifted_into(m1@, m0@),
                lifted_into(schemas@, m0@),
            );
            assert(member_walked_to(
                m2,
                all[i as int],
                schemas@.dom(),
                variant_name_of(parent@, i as nat, all[i as int]),
                lifted_into(schemas@, m0@),
            ));
        }
        done.push(m2);
        proof {
            assert(done@.drop_last() =~= d0);
            assert(all.subrange(0, i + 1).drop_last() =~= all.subrange(0, i as int));
            assert(all.subrange(0, i + 1).last() == all[i as int]);
            assert(members_walked_to(done@, all.subrange(0, i + 1), schemas@.dom(), parent@, lifted_into(schemas@, m0@)));
            lemma_added_within_trans(
                m0@,
                m1@,
                schemas@,
                walked_targets(d0, all.subrange(0, i as int)),
                member_walked_targets(m2, all[i as int]),
            );
            lemma_fresh_within_trans(m0@, m1@, schemas@, walked_targets(d0, all.subrange(0, i as int)), member_walked_targets(m2, all[i as int])); lemma_distinct_add(walked_targets(d0, all.subrange(0, i as int)), member_walked_targets(m2, all[i as int]), m1@);
            assert(walked_targets(done@, all.subrange(0, i + 1)) == walked_targets(d0, all.subrange(0, i as int)).add(
                member_walked_targets(m2, all[i as int]),
            ));
            if members_walked(all) == 0 {
                assert(all.subrange(0, i + 1).drop_last() =~= all.subrange(0, i as int));
            }
        }
        i = i + 1;
        assert(ms@ =~= all.subrange(i as int, all.len() as int));
    }
    assert(all.subrange(0, all.len() as int) =~= all);
    done
}


/// Every schema of `m` is flat.
pub open spec fn all_flat(m: Map<Seq<char>, SchemaObject>) -> bool {
    forall|k: Seq<char>| #[trigger] m.contains_key(k) ==> is_flat(m[k].kind)
}

/// What the result asks of each schema that a reference to `n` replaced
/// in the schema named `owner`: `n` is a name that `m0` did not have and
/// names the schema that it was lifted into (its origin is that schema), or
/// `n` is `owner` itself (a lifted schema that took the name of the schema
/// it stood in gives way to it).
pub open spec fn from_origin(
    m0: Map<Seq<char>, SchemaObject>,
    org: Map<Seq<char>, SchemaObject>,
    owner: Seq<char>,
) -> spec_fn(Seq<char>, SchemaObject) -> bool {
    |n: Seq<char>, x: SchemaObject| n == owner || (!m0.contains_key(n) && org.contains_key(n) && org[n] == x)
}

/// `m1` is what normalizing `m0` gives, where `org` tells what each name of
/// `m1` holds at the start: the schema of `m0` for the names of `m0`, and
/// the complex schema lifted out under it for the others. The schema under
/// each name is its origin with everything nested in it lifted.
pub open spec fn normalized_from(
    m0: Map<Seq<char>, SchemaObject>,
    m1: Map<Seq<char>, SchemaObject>,
    org: Map<Seq<char>, SchemaObject>,
) -> bool {
    &&& org.dom() == m1.dom()
    &&& forall|k: Seq<char>| #[trigger] m0.contains_key(k) ==> m1.contains_key(k) && org[k] == m0[k]
    &&& forall|k: Seq<char>|
        #[trigger] m1.contains_key(k) && !m0.contains_key(k) ==> is_complex_kind(org[k].kind)
    &&& forall|k: Seq<char>|
        #[trigger] m1.contains_key(k) ==> schema_lifted(m1[k], org[k], m1.dom(), k, from_origin(m0, org, k))
    &&& referred(m0, m1, org)
    &&& referred_once(m0, m1, org)
    &&& targets_distinct(m1, org)
}

/// Every name of `s` that `m0` does not have is the target of a reference
/// that the schema under another name of `s` holds in place of a complex
/// schema of its origin; that schema is flat.
pub open spec fn referred(
    m0: Map<Seq<char>, SchemaObject>,
    s: Map<Seq<char>, SchemaObject>,
    org: Map<Seq<char>, SchemaObject>,
) -> bool {
    forall|k: Seq<char>|
        #[trigger] s.contains_key(k) && !m0.contains_key(k) ==> exists|k2: Seq<char>|
            k2 != k && s.contains_key(k2) && is_flat(s[k2].kind) && #[trigger] kind_targets(
                s[k2].kind,
                org[k2].kind,
            ).contains(k)
}

/// A schema put beside itself holds no reference in place of a complex
/// schema: it has no targets.
proof fn lemma_self_targets(x: SchemaForm)
    ensures
        kind_targets(x, x) =~= Multiset::<Seq<char>>::empty(),
    decreases x,
{
    match x {
        SchemaForm::TypeForm(TypeForm::Object(o)) => {
            assert(decreases_to!(x => o.properties@));
            lemma_self_props_targets(o.properties@);
        },
        SchemaForm::TypeForm(TypeForm::Array(a)) => {
            if let Some(b) = a.items {
                lemma_self_slot_targets(*b);
            }
        },
        SchemaForm::AllOf(ms) => {
            assert(decreases_to!(x => ms@));
            lemma_self_members_targets(ms@);
        },
        SchemaForm::AnyOf(ms) => {
            assert(decreases_to!(x => ms@));
            lemma_self_walked_targets(ms@);
        },
        SchemaForm::OneOf(ms) => {
            assert(decreases_to!(x => ms@));
            lemma_self_walked_targets(ms@);
        },
        _ => {},
    }
}

proof fn lemma_self_slot_targets(x: RefOr<SchemaObject>)
    ensures
        slot_targets(x, x) =~= Multiset::<Seq<char>>::empty(),
    decreases x,
{
    if let RefOr::Item(t) = x {
        if !is_complex_kind(t.kind) {
            lemma_self_targets(t.kind);
        }
    }
}

proof fn lemma_self_props_targets(ps: Seq<(String, RefOr<SchemaObject>)>)
    ensures
        props_targets(ps, ps) =~= Multiset::<Seq<char>>::empty(),
    decreases ps,
{
    if ps.len() > 0 {
        assert(decreases_to!(ps => ps.drop_last()));
        assert(decreases_to!(ps => ps.last()));
        lemma_self_props_targets(ps.drop_last());
        lemma_self_slot_targets(ps.last().1);
    }
}

proof fn lemma_self_members_targets(ms: Seq<RefOr<SchemaObject>>)
    ensures
        members_targets(ms, ms) =~= Multiset::<Seq<char>>::empty(),
    decreases ms,
{
    if ms.len() > 0 {
        assert(decreases_to!(ms => ms.drop_last()));
        assert(decreases_to!(ms => ms.last()));
        lemma_self_members_targets(ms.drop_last());
        lemma_self_slot_targets(ms.last());
    }
}

proof fn lemma_self_walked_targets(ms: Seq<RefOr<SchemaObject>>)
    ensures
        walked_targets(ms, ms) =~= Multiset::<Seq<char>>::empty(),
    decreases ms,
{
    if ms.len() > 0 {
        assert(decreases_to!(ms => ms.drop_last()));
        assert(decreases_to!(ms => ms.last()));
        lemma_self_walked_targets(ms.drop_last());
        if let RefOr::Item(t) = ms.last() {
            lemma_self_targets(t.kind);
        }
        assert(member_walked_targets(ms.last(), ms.last()) =~= Multiset::<Seq<char>>::empty());
    }
}

/// The targets of the schema under each name of `s` are names of `s`.
pub open spec fn targets_exist(s: Map<Seq<char>, SchemaObject>, org: Map<Seq<char>, SchemaObject>) -> bool {
    forall|k2: Seq<char>, n: Seq<char>|
        #![trigger kind_targets(s[k2].kind, org[k2].kind).contains(n)]
        s.contains_key(k2) && kind_targets(s[k2].kind, org[k2].kind).contains(n) ==> s.contains_key(n)
}

/// No name occurs twice among the targets of the schema under a name of
/// `s`.
pub open spec fn targets_distinct(s: Map<Seq<char>, SchemaObject>, org: Map<Seq<char>, SchemaObject>) -> bool {
    forall|k2: Seq<char>| #[trigger] s.contains_key(k2) ==> distinct_targets(kind_targets(s[k2].kind, org[k2].kind))
}

/// Each name of `s` that `m0` does not have is a target of the schema of
/// at most one name other than itself.
pub open spec fn referred_once(
    m0: Map<Seq<char>, SchemaObject>,
    s: Map<Seq<char>, SchemaObject>,
    org: Map<Seq<char>, SchemaObject>,
) -> bool {
    forall|k: Seq<char>, k2: Seq<char>, k3: Seq<char>|
        #![trigger kind_targets(s[k2].kind, org[k2].kind).contains(k), kind_targets(s[k3].kind, org[k3].kind).contains(k)]
        s.contains_key(k2) && s.contains_key(k3) && k2 != k && k3 != k && !m0.contains_key(k)
            && kind_targets(s[k2].kind, org[k2].kind).contains(k) && kind_targets(s[k3].kind, org[k3].kind).contains(k)
            ==> k2 == k3
}

/// A round of `normalize` that walks the schema of the top name of the
/// queue keeps the targets among the names, and each new name a target of
/// at most one other schema: the walked schema's targets are the names the
/// walk added.
proof fn lemma_referred_once_walk(
    m0: Map<Seq<char>, SchemaObject>,
    s0: Map<Seq<char>, SchemaObject>,
    s1: SchemaMap,
    s2: SchemaMap,
    s3: Map<Seq<char>, SchemaObject>,
    q0: Seq<String>,
    q2: Seq<String>,
    org: Map<Seq<char>, SchemaObject>,
    org2: Map<Seq<char>, SchemaObject>,
    schema: SchemaObject,
    walked: SchemaObject,
)
    requires
        origins_tracked(m0, s0, q0, org),
        targets_exist(s0, org),
        referred_once(m0, s0, org),
        q0.len() > 0,
        s0.contains_key(q0.last()@),
        schema == s0[q0.last()@],
        s1@ == s0.remove(q0.last()@),
        lifted(s1, s2, q0.drop_last(), q2, nested(schema.kind)),
        fresh_within(s1@, s2@, kind_targets(walked.kind, schema.kind)),
        targets_distinct(s0, org),
        distinct_targets(kind_targets(walked.kind, schema.kind)),
        nested(schema.kind) == 0 ==> same_kind(walked.kind, schema.kind) && s2@ == s1@,
        s3 == s2@.insert(q0.last()@, walked),
        forall|k: Seq<char>| #[trigger] org.contains_key(k) ==> org2.contains_key(k) && org2[k] == org[k],
        forall|k: Seq<char>| #[trigger] s3.contains_key(k) && !org.contains_key(k) ==> org2[k] == s3[k],
    ensures
        targets_exist(s3, org2),
        referred_once(m0, s3, org2),
        targets_distinct(s3, org2),
{
    let name = q0.last()@;
    let t_new = kind_targets(walked.kind, org[name].kind);
    let first = s0[name] == org[name];
    assert(org.contains_key(name));
    if !first {
        assert(walked_from(m0, s0, org, name));
        lemma_same_kind_targets(walked.kind, schema.kind, org[name].kind);
    }
    // the targets of the schema under each name after the round
    assert forall|k2: Seq<char>| #[trigger] s3.contains_key(k2) implies kind_targets(s3[k2].kind, org2[k2].kind)
        == (if k2 == name {
        t_new
    } else if s0.contains_key(k2) {
        kind_targets(s0[k2].kind, org[k2].kind)
    } else {
        Multiset::<Seq<char>>::empty()
    }) by {
        if k2 != name {
            if s0.contains_key(k2) {
                assert(s1@.contains_key(k2));
                assert(s3[k2] == s0[k2]);
            } else {
                assert(!org.contains_key(k2));
                assert(org2[k2] == s3[k2]);
                lemma_self_targets(s3[k2].kind);
            }
        }
    }
    assert forall|k2: Seq<char>| #[trigger] s3.contains_key(k2) implies distinct_targets(
        kind_targets(s3[k2].kind, org2[k2].kind),
    ) by {
        if k2 != name && s0.contains_key(k2) {
            assert(distinct_targets(kind_targets(s0[k2].kind, org[k2].kind)));
        } else if k2 == name && !first {
            assert(distinct_targets(kind_targets(s0[name].kind, org[name].kind)));
        }
    }
    assert(s0.dom().subset_of(s3.dom())) by {
        assert forall|x: Seq<char>| s0.contains_key(x) implies s3.contains_key(x) by {
            if x != name {
                assert(s1@.contains_key(x));
            }
        }
    }
    assert forall|k2: Seq<char>| #[trigger] s3.contains_key(k2) implies distinct_targets(
        kind_targets(s3[k2].kind, org2[k2].kind),
    ) by {
        if k2 != name && s0.contains_key(k2) {
            assert(distinct_targets(kind_targets(s0[k2].kind, org[k2].kind)));
        } else if k2 == name && !first {
            assert(distinct_targets(kind_targets(s0[name].kind, org[name].kind)));
        }
    }
    assert forall|k2: Seq<char>, n: Seq<char>|
        s3.contains_key(k2) && #[trigger] kind_targets(s3[k2].kind, org2[k2].kind).contains(n) implies s3.contains_key(n) by {
        if k2 == name {
            if first {
                assert(kind_targets(walked.kind, schema.kind).contains(n));
            } else {
                assert(kind_targets(s0[name].kind, org[name].kind).contains(n));
            }
        } else {
            assert(kind_targets(s0[k2].kind, org[k2].kind).contains(n));
        }
    }
    assert forall|k: Seq<char>, k2: Seq<char>, k3: Seq<char>|
        s3.contains_key(k2) && s3.contains_key(k3) && k2 != k && k3 != k && !m0.contains_key(k)
            && #[trigger] kind_targets(s3[k2].kind, org2[k2].kind).contains(k)
            && #[trigger] kind_targets(s3[k3].kind, org2[k3].kind).contains(k) implies k2 == k3 by {
        if k2 != k3 {
            if k2 == name || k3 == name {
                let other = if k2 == name { k3 } else { k2 };
                assert(t_new.contains(k));
                assert(s0.contains_key(other));
                assert(kind_targets(s0[other].kind, org[other].kind).contains(k));
                if first {
                    assert(kind_targets(walked.kind, schema.kind).contains(k));
                    assert(!s1@.contains_key(k));
                    assert(s0.contains_key(k));
                } else {
                    assert(kind_targets(s0[name].kind, org[name].kind).contains(k));
                }
            } else {
                assert(kind_targets(s0[k2].kind, org[k2].kind).contains(k));
                assert(kind_targets(s0[k3].kind, org[k3].kind).contains(k));
            }
        }
    }
}

/// A round of `normalize` that walks the schema of the top name of the
/// queue keeps every new name referred to: the names that the walk added
/// are targets of the walked schema, and the other references stay.
proof fn lemma_referred_walk(
    m0: Map<Seq<char>, SchemaObject>,
    s0: Map<Seq<char>, SchemaObject>,
    s1: SchemaMap,
    s2: SchemaMap,
    s3: Map<Seq<char>, SchemaObject>,
    q0: Seq<String>,
    q2: Seq<String>,
    org: Map<Seq<char>, SchemaObject>,
    org2: Map<Seq<char>, SchemaObject>,
    schema: SchemaObject,
    walked: SchemaObject,
)
    requires
        origins_tracked(m0, s0, q0, org),
        referred(m0, s0, org),
        q0.len() > 0,
        s0.contains_key(q0.last()@),
        schema == s0[q0.last()@],
        s1@ == s0.remove(q0.last()@),
        lifted(s1, s2, q0.drop_last(), q2, nested(schema.kind)),
        added_within(s1@, s2@, kind_targets(walked.kind, schema.kind)),
        nested(walked.kind) == 0,
        nested(schema.kind) == 0 ==> same_kind(walked.kind, schema.kind) && s2@ == s1@,
        s3 == s2@.insert(q0.last()@, walked),
        forall|k: Seq<char>| #[trigger] org.contains_key(k) ==> org2.contains_key(k) && org2[k] == org[k],
    ensures
        referred(m0, s3, org2),
{
    let name = q0.last()@;
    assert forall|k: Seq<char>| #[trigger] s3.contains_key(k) && !m0.contains_key(k) implies exists|k2: Seq<char>|
        k2 != k && s3.contains_key(k2) && is_flat(s3[k2].kind) && #[trigger] kind_targets(
            s3[k2].kind,
            org2[k2].kind,
        ).contains(k) by {
        if s0.contains_key(k) {
            let k2 = choose|k2: Seq<char>|
                k2 != k && s0.contains_key(k2) && is_flat(s0[k2].kind) && #[trigger] kind_targets(
                    s0[k2].kind,
                    org[k2].kind,
                ).contains(k);
            assert(org.contains_key(k2));
            if k2 != name {
                assert(s1@.contains_key(k2));
                assert(s3[k2] == s0[k2]);
            } else {
                lemma_same_kind_targets(walked.kind, schema.kind, org[name].kind);
            }
            assert(kind_targets(s3[k2].kind, org2[k2].kind).contains(k));
        } else {
            assert(k != name);
            assert(!s1@.contains_key(k));
            assert(s2@.contains_key(k));
            assert(kind_targets(walked.kind, schema.kind).contains(k));
            if s0[name] != org[name] {
                assert(walked_from(m0, s0, org, name));
            }
            assert(org2[name] == schema);
            assert(kind_targets(s3[name].kind, org2[name].kind).contains(k));
        }
    }
}

/// The schema under `k` has been walked: it is its origin with what is
/// nested in it lifted, and flat.
pub open spec fn walked_from(m0: Map<Seq<char>, SchemaObject>, s: Map<Seq<char>, SchemaObject>, org: Map<Seq<char>, SchemaObject>, k: Seq<char>) -> bool {
    schema_lifted(s[k], org[k], s.dom(), k, from_origin(m0, org, k)) && is_flat(s[k].kind)
}

/// How the schemas stand while `normalize` runs: each name has an origin
/// (the schema of the input, or the complex schema lifted out under it),
/// and holds it still, waiting in the queue, or has been walked.
pub open spec fn origins_tracked(
    m0: Map<Seq<char>, SchemaObject>,
    s: Map<Seq<char>, SchemaObject>,
    q: Seq<String>,
    org: Map<Seq<char>, SchemaObject>,
) -> bool {
    &&& org.dom() == s.dom()
    &&& forall|k: Seq<char>| #[trigger] m0.contains_key(k) ==> org.contains_key(k) && org[k] == m0[k]
    &&& forall|k: Seq<char>|
        #[trigger] org.contains_key(k) && !m0.contains_key(k) ==> is_complex_kind(org[k].kind)
    &&& forall|k: Seq<char>|
        #[trigger] s.contains_key(k) ==> (s[k] == org[k] && exists|j: int| 0 <= j < q.len() && #[trigger] q[j]@ == k)
            || walked_from(m0, s, org, k)
}

/// A round of `normalize` that takes the top name off the queue and finds
/// no schema under it keeps the origins tracked.
proof fn lemma_origins_skip(
    m0: Map<Seq<char>, SchemaObject>,
    s: Map<Seq<char>, SchemaObject>,
    q0: Seq<String>,
    org: Map<Seq<char>, SchemaObject>,
)
    requires
        origins_tracked(m0, s, q0, org),
        q0.len() > 0,
        !s.contains_key(q0.last()@),
    ensures
        origins_tracked(m0, s, q0.drop_last(), org),
{
    let q1 = q0.drop_last();
    assert forall|k: Seq<char>| #[trigger] s.contains_key(k) implies (s[k] == org[k] && exists|j: int|
        0 <= j < q1.len() && #[trigger] q1[j]@ == k) || walked_from(m0, s, org, k) by {
        if !walked_from(m0, s, org, k) {
            let j = choose|j: int| 0 <= j < q0.len() && #[trigger] q0[j]@ == k;
            assert(j != q0.len() - 1);
            assert(q1[j] == q0[j]);
        }
    }
}

/// A round of `normalize` that takes the schema of the top name of the
/// queue out, walks it, and puts what the walk gives back under the name,
/// keeps the origins tracked: the names that the walk added get the schemas
/// lifted out under them as origins.
proof fn lemma_origins_walk(
    m0: Map<Seq<char>, SchemaObject>,
    s0: Map<Seq<char>, SchemaObject>,
    s1: SchemaMap,
    s2: SchemaMap,
    s3: Map<Seq<char>, SchemaObject>,
    q0: Seq<String>,
    q2: Seq<String>,
    org: Map<Seq<char>, SchemaObject>,
    schema: SchemaObject,
    walked: SchemaObject,
) -> (org2: Map<Seq<char>, SchemaObject>)
    requires
        origins_tracked(m0, s0, q0, org),
        q0.len() > 0,
        s0.contains_key(q0.last()@),
        schema == s0[q0.last()@],
        s1@ == s0.remove(q0.last()@),
        lifted(s1, s2, q0.drop_last(), q2, nested(schema.kind)),
        walked.title == schema.title,
        walked.description == schema.description,
        walked.nullable == schema.nullable,
        kind_lifted(walked.kind, schema.kind, s2@.dom(), q0.last()@, lifted_into(s2@, s1@)),
        nested(walked.kind) == 0,
        nested(schema.kind) == 0 ==> same_kind(walked.kind, schema.kind) && s2@ == s1@ && q2 == q0.drop_last(),
        s3 == s2@.insert(q0.last()@, walked),
    ensures
        origins_tracked(m0, s3, q2, org2),
        forall|k: Seq<char>| #[trigger] org.contains_key(k) ==> org2.contains_key(k) && org2[k] == org[k],
        forall|k: Seq<char>| #[trigger] s3.contains_key(k) && !org.contains_key(k) ==> org2[k] == s3[k],
{
    let name = q0.last()@;
    let q1 = q0.drop_last();
    let org2 = Map::new(
        |k: Seq<char>| s3.contains_key(k),
        |k: Seq<char>| if org.contains_key(k) { org[k] } else { s2@[k] },
    );
    let added = q2.subrange(q1.len() as int, q2.len() as int);
    assert(org2.dom() =~= s3.dom());
    assert forall|k: Seq<char>| #[trigger] org.contains_key(k) implies org2.contains_key(k) && org2[k] == org[k] by {
        if k != name {
            assert(s1@.contains_key(k));
        }
    }
    assert(s0.dom().subset_of(s3.dom())) by {
        assert forall|x: Seq<char>| s0.contains_key(x) implies s3.contains_key(x) by {
            if x != name {
                assert(s1@.contains_key(x));
            }
        }
    }
    assert forall|k: Seq<char>, n: Seq<char>, x: SchemaObject| #[trigger] from_origin(m0, org, k)(n, x) implies from_origin(
        m0,
        org2,
        k,
    )(n, x) by {}
    assert forall|k: Seq<char>| #[trigger] m0.contains_key(k) implies org2.contains_key(k) && org2[k] == m0[k] by {}
    assert forall|k: Seq<char>| #[trigger] org2.contains_key(k) && !m0.contains_key(k) implies is_complex_kind(
        org2[k].kind,
    ) by {
        if !org.contains_key(k) {
            assert(k != name);
            assert(!s1@.contains_key(k));
            assert(s2@.contains_key(k));
        }
    }
    assert forall|k: Seq<char>| #[trigger] s3.contains_key(k) implies (s3[k] == org2[k] && exists|j: int|
        0 <= j < q2.len() && #[trigger] q2[j]@ == k) || walked_from(m0, s3, org2, k) by {
        if k == name {
            if s0[name] == org[name] {
                // walked from its origin
                assert forall|n: Seq<char>, x: SchemaObject| #[trigger] lifted_into(s2@, s1@)(n, x) implies from_origin(
                    m0,
                    org2,
                    name,
                )(n, x) by {
                    if n != name {
                        assert(!org.contains_key(n));
                        if m0.contains_key(n) {
                            assert(s0.contains_key(n));
                            assert(s1@.contains_key(n));
                        }
                    }
                }
                lemma_kind_lifted_grow(
                    walked.kind,
                    schema.kind,
                    s2@.dom(),
                    s3.dom(),
                    name,
                    lifted_into(s2@, s1@),
                    from_origin(m0, org2, name),
                );
            } else {
                // walked before: flat, and walking it again changes nothing
                assert(walked_from(m0, s0, org, name));
                assert(is_flat(schema.kind));
                lemma_same_kind_lifted(walked.kind, schema.kind, org[name].kind, s0.dom(), name, from_origin(m0, org, name));
                lemma_kind_lifted_grow(
                    walked.kind,
                    org[name].kind,
                    s0.dom(),
                    s3.dom(),
                    name,
                    from_origin(m0, org, name),
                    from_origin(m0, org2, name),
                );
            }
        } else if s1@.contains_key(k) {
            assert(s3[k] == s0[k]);
            if walked_from(m0, s0, org, k) {
                lemma_kind_lifted_grow(
                    s0[k].kind,
                    org[k].kind,
                    s0.dom(),
                    s3.dom(),
                    k,
                    from_origin(m0, org, k),
                    from_origin(m0, org2, k),
                );
            } else {
                let j = choose|j: int| 0 <= j < q0.len() && #[trigger] q0[j]@ == k;
                assert(j != q0.len() - 1);
                assert(q1[j] == q0[j]);
                assert(q2.subrange(0, q1.len() as int)[j] == q1[j]);
            }
        } else {
            // added by the walk: waiting in the queue, as lifted
            assert(s2@.contains_key(k));
            let j = choose|j: int| 0 <= j < added.len() && #[trigger] added[j]@ == k;
            assert(q2[q1.len() + j] == added[j]);
            assert(!org.contains_key(k));
        }
    }
    org2
}

/// Lifts every complex schema that stands nested in a schema of the map
/// out into a schema of its own, until none is left: each schema is taken
/// out, walked, and put back, and each lifted schema is walked in turn.
///
/// A lifted schema takes its title (trimmed, in upper camel case) as its
/// name, else the name that where it stood suggests, made unique with a
/// number. The schemas of the map stay under their names, with their
/// properties, items and members in order, each complex one among them
/// replaced by a reference to a schema of the result; the other names of the
/// result hold complex schemas; every schema of the result is flat; a map
/// whose schemas are all flat already is left as it was.
///
/// Each name of the result has an origin: the schema of the map under it,
/// or the complex schema that was lifted out under it. The schema under the
/// name is its origin with every complex schema nested in it replaced by a
/// reference to a name that the map did not have and whose origin is that
/// very schema (or, where the lifted schema took the name of the schema it
/// stood in, to that name). Every name that the map did not have is the
/// target of exactly one such reference outside its own schema.
#[verifier::loop_isolation(false)]
#[verifier::rlimit(40)]
pub fn normalize(schemas: &mut SchemaMap)
    requires
        old(schemas).wf(),
        old(schemas).entries().len() + old(schemas).total(weight()) < name_bound(),
    ensures
        final(schemas).wf(),
        forall|k: Seq<char>| #[trigger] old(schemas)@.contains_key(k) ==> final(schemas)@.contains_key(k),
        all_flat(final(schemas)@),
        final(schemas).entries().len() <= old(schemas).entries().len() + old(schemas).total(weight()),
        exists|org: Map<Seq<char>, SchemaObject>| #[trigger] normalized_from(old(schemas)@, final(schemas)@, org),
        forall|k: Seq<char>|
            #[trigger] final(schemas)@.contains_key(k) && !old(schemas)@.contains_key(k) ==> is_complex_kind(
                final(schemas)@[k].kind,
            ),
        all_flat(old(schemas)@) ==> final(schemas)@.dom() == old(schemas)@.dom() && forall|
            k: Seq<char>,
        | #[trigger] old(schemas)@.contains_key(k) ==> same_schema(final(schemas)@[k], old(schemas)@[k]),
{
    let ghost m0 = *schemas;
    let ghost bound = m0.entries().len() + m0.total(weight());
    let mut queue = schemas.keys();
    let ghost keys0 = queue@;
    proof {
        m0.lemma_entries();
        assert forall|k: Seq<char>| #[trigger] m0@.contains_key(k) implies exists|j: int|
            0 <= j < queue@.len() && #[trigger] queue@[j]@ == k by {
            let i = choose|i: int| 0 <= i < m0.entries().len() && #[trigger] m0.entries()[i].0@ == k;
            assert(queue@[i]@ == k);
        }
        assert(keys0.subrange(0, keys0.len() as int) =~= keys0);
    }
    let ghost mut org = m0@;
    proof {
        assert forall|k2: Seq<char>, n: Seq<char>|
            m0@.contains_key(k2) && #[trigger] kind_targets(m0@[k2].kind, m0@[k2].kind).contains(n) implies m0@.contains_key(
            n,
        ) by {
            lemma_self_targets(m0@[k2].kind);
        }
        assert forall|k2: Seq<char>| #[trigger] m0@.contains_key(k2) implies distinct_targets(
            kind_targets(m0@[k2].kind, m0@[k2].kind),
        ) by {
            lemma_self_targets(m0@[k2].kind);
        }
    }
    while queue.len() > 0
        invariant
            m0.wf(),
            keys0.len() == m0.entries().len(),
            forall|k: int| 0 <= k < keys0.len() ==> #[trigger] keys0[k] == m0.entries()[k].0,
            origins_tracked(m0@, schemas@, queue@, org),
            referred(m0@, schemas@, org),
            targets_exist(schemas@, org),
            referred_once(m0@, schemas@, org),
            targets_distinct(schemas@, org),
            forall|k: Seq<char>|
                #[trigger] schemas@.contains_key(k) && !m0@.contains_key(k) ==> is_complex_kind(
                    schemas@[k].kind,
                ),
            schemas.wf(),
            schemas.entries().len() + schemas.total(weight()) <= bound,
            bound < name_bound(),
            forall|k: Seq<char>| #[trigger] m0@.contains_key(k) ==> schemas@.contains_key(k),
            forall|k: Seq<char>|
                #[trigger] schemas@.contains_key(k) ==> is_flat(schemas@[k].kind) || exists|j: int|
                    0 <= j < queue@.len() && #[trigger] queue@[j]@ == k,
            all_flat(m0@) ==> {
                &&& schemas@.dom() == m0@.dom()
                &&& queue@.len() <= keys0.len()
                &&& queue@ == keys0.subrange(0, queue@.len() as int)
                &&& forall|k: Seq<char>| #[trigger]
                    m0@.contains_key(k) ==> same_schema(schemas@[k], m0@[k]) || exists|j: int|
                        0 <= j < queue@.len() && #[trigger] queue@[j]@ == k
                &&& forall|j: int| 0 <= j < queue@.len() ==> schemas@[#[trigger] queue@[j]@] == m0@[queue@[j]@]
            },
        decreases schemas.total(weight()) + queue@.len(),
    {
        let ghost q0 = queue@;
        let ghost s0 = *schemas;
        let name = match queue.pop() {
            Some(n) => n,
            None => { break; },
        };
        let taken = schemas.remove(name.as_str());
        match taken {
            None => {
                proof {
                    lemma_origins_skip(m0@, s0@, q0, org);
                    assert forall|k: Seq<char>| #[trigger] schemas@.contains_key(k) implies is_flat(
                        schemas@[k].kind,
                    ) || exists|j: int| 0 <= j < queue@.len() && #[trigger] queue@[j]@ == k by {
                        if !is_flat(schemas@[k].kind) {
                            let j = choose|j: int| 0 <= j < q0.len() && #[trigger] q0[j]@ == k;
                            assert(queue@[j] == q0[j]);
                        }
                    }
                    if all_flat(m0@) {
                        assert(queue@ =~= keys0.subrange(0, queue@.len() as int));
                        assert forall|k: Seq<char>| #[trigger] m0@.contains_key(k) implies same_schema(
                            schemas@[k],
                            m0@[k],
                        ) || exists|j: int| 0 <= j < queue@.len() && #[trigger] queue@[j]@ == k by {
                            if !same_schema(schemas@[k], m0@[k]) {
                                let j = choose|j: int| 0 <= j < q0.len() && #[trigger] q0[j]@ == k;
                                assert(queue@[j] == q0[j]);
                            }
                        }
                        assert forall|j: int| 0 <= j < queue@.len() implies schemas@[#[trigger] queue@[j]@]
                            == m0@[queue@[j]@] by {
                            assert(queue@[j] == q0[j]);
                        }
                    }
                }
            },
            Some(schema) => {
                let ghost s1 = *schemas;
                let ghost q1 = queue@;
                let ghost sch = schema;
                let SchemaObject { title, description, nullable, kind } = schema;
                let ghost k0 = kind;
                assert(weight()(schema) == nested(k0));
                assert(s1.total(weight()) + weight()(schema) == s0.total(weight()));
                let kind = walk(name.as_str(), kind, schemas, &mut queue);
                let ghost s2 = *schemas;
                let ghost q2 = queue@;
                let walked = SchemaObject { title, description, nullable, kind };
                let ghost wk = walked;
                schemas.insert(name, walked);
                proof {
                    let ghost org1 = org;
                    org = lemma_origins_walk(m0@, s0@, s1, s2, schemas@, q0, q2, org1, sch, wk);
                    lemma_referred_walk(m0@, s0@, s1, s2, schemas@, q0, q2, org1, org, sch, wk);
                    lemma_referred_once_walk(m0@, s0@, s1, s2, schemas@, q0, q2, org1, org, sch, wk);
                    assert forall|k: Seq<char>| #[trigger] schemas@.contains_key(k) && !m0@.contains_key(k)
                        implies is_complex_kind(schemas@[k].kind) by {
                        if k != name@ && s1@.contains_key(k) {
                            assert(s0@.contains_key(k));
                        }
                    }
                    assert(weight()(walked) == 0);
                    assert forall|k: Seq<char>| #[trigger] m0@.contains_key(k) implies schemas@.contains_key(k) by {
                        if k != name@ {
                            assert(s0@.contains_key(k));
                            assert(s1@.contains_key(k));
                            assert(s2@.contains_key(k));
                        }
                    }
                    assert forall|k: Seq<char>| #[trigger] schemas@.contains_key(k) implies is_flat(
                        schemas@[k].kind,
                    ) || exists|j: int| 0 <= j < queue@.len() && #[trigger] queue@[j]@ == k by {
                        if k != name@ {
                            if s1@.contains_key(k) {
                                assert(s0@.contains_key(k));
                                if !is_flat(s0@[k].kind) {
                                    let j = choose|j: int| 0 <= j < q0.len() && #[trigger] q0[j]@ == k;
                                    assert(j < q1.len());
                                    assert(q1[j] == q0[j]);
                                    assert(q2.subrange(0, q1.len() as int)[j] == q1[j]);
                                    assert(queue@[j]@ == k);
                                }
                            } else {
                                let added = q2.subrange(q1.len() as int, q2.len() as int);
                                let j = choose|j: int| 0 <= j < added.len() && #[trigger] added[j]@ == k;
                                assert(queue@[q1.len() + j] == added[j]);
                            }
                        }
                    }
                    if all_flat(m0@) {
                        assert(q0 == keys0.subrange(0, q0.len() as int));
                        assert(q0[q0.len() - 1] == keys0.subrange(0, q0.len() as int)[q0.len() - 1]);
                        m0.lemma_entries();
                        assert(m0@.contains_key(name@));
                        assert(is_flat(m0@[name@].kind));
                        assert(q2 == q1);
                        assert(s0@[name@] == m0@[name@]);
                        assert(queue@ =~= keys0.subrange(0, queue@.len() as int));
                        assert(schemas@.dom() =~= m0@.dom());
                        assert(same_schema(walked, schema));
                        assert forall|k: Seq<char>| #[trigger] m0@.contains_key(k) implies same_schema(
                            schemas@[k],
                            m0@[k],
                        ) || exists|j: int| 0 <= j < queue@.len() && #[trigger] queue@[j]@ == k by {
                            if k != name@ && !same_schema(schemas@[k], m0@[k]) {
                                let j = choose|j: int| 0 <= j < q0.len() && #[trigger] q0[j]@ == k;
                                assert(queue@[j] == q0[j]);
                            }
                        }
                        assert forall|j: int| 0 <= j < queue@.len() implies schemas@[#[trigger] queue@[j]@]
                            == m0@[queue@[j]@] by {
                            assert(queue@[j] == q0[j]);
                            m0.lemma_entries();
                            assert(keys0[j] == m0.entries()[j].0);
                            assert(keys0[q0.len() - 1] == m0.entries()[q0.len() - 1].0);
                            lemma_name_order(m0.entries()[j].0@, m0.entries()[j].0@, m0.entries()[j].0@);
                            assert(name_lt(m0.entries()[j].0@, m0.entries()[q0.len() - 1].0@));
                        }
                    }
                }
            },
        }
    }
    proof {
        assert forall|k: Seq<char>| #[trigger] schemas@.contains_key(k) implies is_flat(schemas@[k].kind) by {
            if !is_flat(schemas@[k].kind) {
                let j = choose|j: int| 0 <= j < queue@.len() && #[trigger] queue@[j]@ == k;
            }
        }
        assert forall|k: Seq<char>| #[trigger] schemas@.contains_key(k) implies walked_from(m0@, schemas@, org, k) by {
            if !walked_from(m0@, schemas@, org, k) {
                let j = choose|j: int| 0 <= j < queue@.len() && #[trigger] queue@[j]@ == k;
            }
        }
        assert(normalized_from(m0@, schemas@, org));
        if all_flat(m0@) {
            assert forall|k: Seq<char>| #[trigger] m0@.contains_key(k) implies same_schema(
                schemas@[k],
                m0@[k],
            ) by {
                if !same_schema(schemas@[k], m0@[k]) {
                    let j = choose|j: int| 0 <= j < queue@.len() && #[trigger] queue@[j]@ == k;
                }
            }
        }
    }
}


/// `n`, or `cap` where `n` is larger.
pub open spec fn capped(n: nat, cap: nat) -> nat {
    if n < cap {
        n
    } else {
        cap
    }
}

fn add_capped(a: u64, b: u64, cap: u64) -> (r: u64)
    requires
        a <= cap,
        cap <= u32::MAX,
    ensures
        forall|x: nat, y: nat|
            #![trigger capped(x, cap as nat), capped(y, cap as nat)]
            a == capped(x, cap as nat) && b == capped(y, cap as nat) ==> r == capped(x + y, cap as nat),
        b <= cap ==> r <= cap,
{
    let b2 = if b < cap { b } else { cap };
    let sum = a + b2;
    if sum < cap {
        sum
    } else {
        cap
    }
}

/// The complex schemas nested in `kind` that `normalize` lifts out,
/// counted up to `cap`.
#[verifier::loop_isolation(false)]
fn kind_weight(kind: &SchemaForm, cap: u64) -> (r: u64)
    requires
        1 <= cap <= u32::MAX,
    ensures
        r == capped(nested(*kind), cap as nat),
    decreases kind, 0nat,
{
    let ghost gk = *kind;
    match kind {
        SchemaForm::TypeForm(TypeForm::Object(o)) => {
            let ghost go = *o;
            assert(decreases_to!(gk => gk->TypeForm_0));
            let mut acc: u64 = 0;
            let mut i: usize = 0;
            while i < o.properties.len()
                invariant
                    i <= o.properties@.len(),
                    1 <= cap <= u32::MAX,
                    acc <= cap,
                    acc == capped(props_nested(o.properties@.subrange(0, i as int)), cap as nat),
                    gk == SchemaForm::TypeForm(TypeForm::Object(*o)),
                    go == *o,
                decreases o.properties@.len() - i,
            {
                proof {
                    lemma_props_prefix(o.properties@, i as int);
                    let gt = gk->TypeForm_0;
                    assert(decreases_to!(gk => gt));
                    assert(decreases_to!(gt => gt->Object_0));
                    assert(decreases_to!(go => go.properties));
                    assert(decreases_to!(go.properties => go.properties@));
                    assert(decreases_to!(go.properties@ => go.properties@[i as int]));
                    assert(decreases_to!(go.properties@[i as int] => go.properties@[i as int].1));
                    assert(decreases_to!(gk => o.properties@[i as int].1));
                }
                let w = slot_weight(&o.properties[i].1, cap);
                acc = add_capped(acc, w, cap);
                i = i + 1;
            }
            assert(o.properties@.subrange(0, o.properties@.len() as int) =~= o.properties@);
            acc
        },
        SchemaForm::TypeForm(TypeForm::Array(a)) => match &a.items {
            Some(b) => slot_weight(&**b, cap),
            None => 0,
        },
        SchemaForm::AllOf(ms) => {
            let ghost gm = *ms;
            let mut acc: u64 = 0;
            let mut i: usize = 0;
            while i < ms.len()
                invariant
                    i <= ms@.len(),
                    1 <= cap <= u32::MAX,
                    acc <= cap,
                    acc == capped(members_lifted(ms@.subrange(0, i as int)), cap as nat),
                    gk == SchemaForm::AllOf(*ms),
                    gm == *ms,
                decreases ms@.len() - i,
            {
                proof {
                    lemma_lifted_prefix(ms@, i as int);
                    assert(decreases_to!(gk => gk->AllOf_0));
                    assert(decreases_to!(gm => gm@));
                    assert(decreases_to!(gm@ => gm@[i as int]));
                    assert(decreases_to!(gk => ms@[i as int]));
                }
                let w = slot_weight(&ms[i], cap);
                acc = add_capped(acc, w, cap);
                i = i + 1;
            }
            assert(ms@.subrange(0, ms@.len() as int) =~= ms@);
            acc
        },
        SchemaForm::AnyOf(ms) => members_weight(ms, cap),
        SchemaForm::OneOf(ms) => members_weight(ms, cap),
        _ => 0,
    }
}

/// The complex schemas nested in the members of an `anyOf` or `oneOf`,
/// counted up to `cap`.
#[verifier::loop_isolation(false)]
fn members_weight(ms: &Vec<RefOr<SchemaObject>>, cap: u64) -> (r: u64)
    requires
        1 <= cap <= u32::MAX,
    ensures
        r == capped(members_walked(ms@), cap as nat),
    decreases ms, 1nat,
{
    let ghost gm = *ms;
    assert(decreases_to!(gm => gm@));
    let mut acc: u64 = 0;
    let mut i: usize = 0;
    while i < ms.len()
        invariant
            i <= ms@.len(),
            1 <= cap <= u32::MAX,
            acc <= cap,
            acc == capped(members_walked(ms@.subrange(0, i as int)), cap as nat),
            gm == *ms,
        decreases ms@.len() - i,
    {
        proof {
            lemma_walked_prefix(ms@, i as int);
        }
        let w = match &ms[i] {
            RefOr::Item(s) => {
                proof {
                    assert(decreases_to!(gm => ms@[i as int]));
                }
                kind_weight(&s.kind, cap)
            },
            RefOr::Reference(_) => {
                assert(capped(0, cap as nat) == 0);
                0
            },
        };
        acc = add_capped(acc, w, cap);
        i = i + 1;
    }
    assert(ms@.subrange(0, ms@.len() as int) =~= ms@);
    acc
}

/// The complex schemas at a slot that lifts, counted up to `cap`.
fn slot_weight(slot: &RefOr<SchemaObject>, cap: u64) -> (r: u64)
    requires
        1 <= cap <= u32::MAX,
    ensures
        r == capped(slot_nested(*slot), cap as nat),
    decreases slot, 2nat,
{
    match slot {
        RefOr::Reference(r) => {
            assert(slot_nested(RefOr::<SchemaObject>::Reference(*r)) == 0);
            0
        },
        RefOr::Item(s) => {
            let w = kind_weight(&s.kind, cap);
            proof {
                assert(capped(1, cap as nat) == 1);
            }
            if is_complex(&s.kind) {
                add_capped(1, w, cap)
            } else {
                w
            }
        },
    }
}

/// Whether `normalize` can take the map: its schemas, counted with the
/// complex schemas nested in them, are fewer than `name_bound()`.
pub fn normalize_fits(schemas: &SchemaMap) -> (b: bool)
    requires
        schemas.wf(),
    ensures
        b == (schemas.entries().len() + schemas.total(weight()) < name_bound()),
{
    let cap: u64 = 4294967293;
    let n = schemas.len();
    if n as u64 >= cap {
        return false;
    }
    let mut acc: u64 = n as u64;
    let mut i: usize = 0;
    let ghost es = schemas.entries();
    while i < n
        invariant
            i <= n == es.len(),
            es == schemas.entries(),
            cap == name_bound(),
            acc <= cap,
            acc == capped((n + sum_entries(es.subrange(0, i as int), weight())) as nat, cap as nat),
        decreases n - i,
    {
        let e = schemas.entry_at(i);
        let w = kind_weight(&e.1.kind, cap);
        proof {
            assert(es.subrange(0, i + 1).drop_last() =~= es.subrange(0, i as int));
            assert(weight()(es[i as int].1) == nested(es[i as int].1.kind));
        }
        acc = add_capped(acc, w, cap);
        i = i + 1;
    }
    assert(es.subrange(0, n as int) =~= es);
    acc < cap
}

/// The effect of `normalize`, as its contract states it.
pub open spec fn normalized(m0: SchemaMap, m1: SchemaMap) -> bool {
    &&& m1.wf()
    &&& forall|k: Seq<char>| #[trigger] m0@.contains_key(k) ==> m1@.contains_key(k)
    &&& all_flat(m1@)
    &&& m1.entries().len() <= m0.entries().len() + m0.total(weight())
    &&& exists|org: Map<Seq<char>, SchemaObject>| #[trigger] normalized_from(m0@, m1@, org)
    &&& forall|k: Seq<char>| #[trigger] m1@.contains_key(k) && !m0@.contains_key(k) ==> is_complex_kind(m1@[k].kind)
    &&& all_flat(m0@) ==> m1@.dom() == m0@.dom() && forall|k: Seq<char>|
        #[trigger] m0@.contains_key(k) ==> same_schema(m1@[k], m0@[k])
}

/// `normalize`, where the map fits: says whether it did, and leaves the
/// map as it was where it does not fit.
pub fn normalize_if_fits(schemas: &mut SchemaMap) -> (done: bool)
    requires
        old(schemas).wf(),
    ensures
        done == (old(schemas).entries().len() + old(schemas).total(weight()) < name_bound()),
        done ==> normalized(*old(schemas), *final(schemas)),
        !done ==> *final(schemas) == *old(schemas),
{
    if normalize_fits(schemas) {
        normalize(schemas);
        true
    } else {
        false
    }
}


/// Normalizing twice changes nothing more: what the first run leaves is
/// flat, and the second run leaves the same names with the same schemas.
pub proof fn lemma_normalize_idempotent(m0: SchemaMap, m1: SchemaMap, m2: SchemaMap)
    requires
        normalized(m0, m1),
        normalized(m1, m2),
    ensures
        m2@.dom() == m1@.dom(),
        forall|k: Seq<char>| #[trigger] m1@.contains_key(k) ==> same_schema(m2@[k], m1@[k]),
        all_flat(m2@),
{
}


/// Every name that normalizing adds is the target of exactly one of the
/// references put in place of complex schemas, outside its own schema: the
/// schema of one other name holds it once, and that of no further name
/// holds it.
pub proof fn lemma_new_name_referred_once(
    m0: Map<Seq<char>, SchemaObject>,
    m1: Map<Seq<char>, SchemaObject>,
    org: Map<Seq<char>, SchemaObject>,
    k: Seq<char>,
)
    requires
        normalized_from(m0, m1, org),
        m1.contains_key(k),
        !m0.contains_key(k),
    ensures
        exists|k2: Seq<char>|
            k2 != k && m1.contains_key(k2) && #[trigger] kind_targets(m1[k2].kind, org[k2].kind).count(k) == 1
                && forall|k3: Seq<char>|
                k3 != k && k3 != k2 && m1.contains_key(k3) ==> #[trigger] kind_targets(
                    m1[k3].kind,
                    org[k3].kind,
                ).count(k) == 0,
{
    let k2 = choose|k2: Seq<char>|
        k2 != k && m1.contains_key(k2) && is_flat(m1[k2].kind) && #[trigger] kind_targets(
            m1[k2].kind,
            org[k2].kind,
        ).contains(k);
    assert(distinct_targets(kind_targets(m1[k2].kind, org[k2].kind)));
    assert(kind_targets(m1[k2].kind, org[k2].kind).count(k) <= 1);
    assert forall|k3: Seq<char>| k3 != k && k3 != k2 && m1.contains_key(k3) implies #[trigger] kind_targets(
        m1[k3].kind,
        org[k3].kind,
    ).count(k) == 0 by {
        if kind_targets(m1[k3].kind, org[k3].kind).count(k) > 0 {
            assert(kind_targets(m1[k3].kind, org[k3].kind).contains(k));
        }
    }
}


/// No inline schema nested in `k` has a title that names it, and the upper
/// camel case of every property name of an object nested in it is not
/// empty (heck makes it so for every name with an alphanumeric character).
pub open spec fn plainly_named_kind(k: SchemaForm) -> bool
    decreases k,
{
    match k {
        SchemaForm::TypeForm(TypeForm::Object(o)) => plainly_named_props(o.properties@),
        SchemaForm::TypeForm(TypeForm::Array(a)) => match a.items {
            Some(b) => plainly_named_slot(*b),
            None => true,
        },
        SchemaForm::AllOf(ms) => plainly_named_members(ms@),
        SchemaForm::AnyOf(ms) => plainly_named_members(ms@),
        SchemaForm::OneOf(ms) => plainly_named_members(ms@),
        _ => true,
    }
}

/// A slot as `plainly_named_kind` asks.
pub open spec fn plainly_named_slot(s: RefOr<SchemaObject>) -> bool
    decreases s,
{
    match s {
        RefOr::Reference(_) => true,
        RefOr::Item(x) => title_name(x.title) is None && plainly_named_kind(x.kind),
    }
}

/// Properties as `plainly_named_kind` asks.
pub open spec fn plainly_named_props(ps: Seq<(String, RefOr<SchemaObject>)>) -> bool
    decreases ps,
{
    if ps.len() == 0 {
        true
    } else {
        plainly_named_props(ps.drop_last()) && upper_camel_case(ps.last().0@).len() > 0 && plainly_named_slot(
            ps.last().1,
        )
    }
}

/// Members as `plainly_named_kind` asks.
pub open spec fn plainly_named_members(ms: Seq<RefOr<SchemaObject>>) -> bool
    decreases ms,
{
    if ms.len() == 0 {
        true
    } else {
        plainly_named_members(ms.drop_last()) && plainly_named_slot(ms.last())
    }
}

/// Where the names that where a schema stands suggests are longer than the
/// name `owner`, the names lifted schemas take are not `owner`, and so not
/// names of `m0` where `ok` says so.
proof fn lemma_slot_targets_fresh(
    new: RefOr<SchemaObject>,
    old: RefOr<SchemaObject>,
    names: Set<Seq<char>>,
    suggested: Seq<char>,
    ok: spec_fn(Seq<char>, SchemaObject) -> bool,
    owner: Seq<char>,
    m0: Map<Seq<char>, SchemaObject>,
)
    requires
        slot_lifted(new, old, names, suggested, ok),
        plainly_named_slot(old),
        suggested.len() > owner.len(),
        forall|n: Seq<char>, x: SchemaObject| #[trigger] ok(n, x) ==> n == owner || !m0.contains_key(n),
    ensures
        forall|n: Seq<char>| #[trigger] slot_targets(new, old).contains(n) ==> !m0.contains_key(n),
    decreases old,
{
    if let RefOr::Item(s) = old {
        if is_complex_kind(s.kind) {
            let r = new->Reference_0;
            let n = choose|n: Seq<char>|
                #[trigger] names.contains(n) && r@ == schema_ref(n) && named_uniquely(
                    names,
                    preferred_name_of(suggested, s),
                    n,
                ) && ok(n, s);
            lemma_ref_target(n);
            assert(preferred_name_of(suggested, s) == suggested);
            let taken = choose|taken: Set<Seq<char>>| #[trigger] taken.subset_of(names) && is_unique_name_in(taken, suggested, n);
            if taken.contains(suggested) {
                let i = choose|i: nat|
                    2 <= i < u32::MAX && n == numbered(suggested, i) && forall|j: nat|
                        2 <= j < i ==> taken.contains(#[trigger] numbered(suggested, j));
                assert(n.len() >= suggested.len());
            }
            assert(n != owner);
            assert(!m0.contains_key(n));
            assert(slot_targets(new, old) =~= Multiset::singleton(n));
            assert forall|x: Seq<char>| #[trigger] slot_targets(new, old).contains(x) implies !m0.contains_key(x) by {
                assert(x == n);
            }
        } else {
            let t = new->Item_0;
            lemma_kind_targets_fresh(t.kind, s.kind, names, suggested, ok, owner, m0);
            assert(slot_targets(new, old) == kind_targets(t.kind, s.kind));
        }
    }
}

proof fn lemma_kind_targets_fresh(
    new: SchemaForm,
    old: SchemaForm,
    names: Set<Seq<char>>,
    parent: Seq<char>,
    ok: spec_fn(Seq<char>, SchemaObject) -> bool,
    owner: Seq<char>,
    m0: Map<Seq<char>, SchemaObject>,
)
    requires
        kind_lifted(new, old, names, parent, ok),
        plainly_named_kind(old),
        parent.len() >= owner.len(),
        forall|n: Seq<char>, x: SchemaObject| #[trigger] ok(n, x) ==> n == owner || !m0.contains_key(n),
    ensures
        forall|n: Seq<char>| #[trigger] kind_targets(new, old).contains(n) ==> !m0.contains_key(n),
    decreases old,
{
    reveal_strlit("Item");
    reveal_strlit("AllOf");
    match old {
        SchemaForm::TypeForm(TypeForm::Object(o)) => {
            let p = new->TypeForm_0->Object_0;
            lemma_props_targets_fresh(p.properties@, o.properties@, names, parent, ok, owner, m0);
            assert(kind_targets(new, old) == props_targets(p.properties@, o.properties@));
            assert forall|n: Seq<char>| #[trigger] kind_targets(new, old).contains(n) implies !m0.contains_key(n) by {
                assert(props_targets(p.properties@, o.properties@).contains(n));
            }
        },
        SchemaForm::TypeForm(TypeForm::Array(a)) => {
            if let Some(b) = a.items {
                let d = new->TypeForm_0->Array_0.items.unwrap();
                lemma_slot_targets_fresh(*d, *b, names, parent + "Item"@, ok, owner, m0);
                assert(kind_targets(new, old) == slot_targets(*d, *b));
                assert forall|n: Seq<char>| #[trigger] kind_targets(new, old).contains(n) implies !m0.contains_key(n) by {
                    assert(slot_targets(*d, *b).contains(n));
                }
            } else {
                assert(kind_targets(new, old) =~= Multiset::empty());
            }
        },
        SchemaForm::AllOf(ms) => {
            lemma_members_targets_fresh(new->AllOf_0@, ms@, names, parent, ok, owner, m0);
            assert forall|n: Seq<char>| #[trigger] kind_targets(new, old).contains(n) implies !m0.contains_key(n) by {
                assert(members_targets(new->AllOf_0@, ms@).contains(n));
            }
        },
        SchemaForm::AnyOf(ms) => {
            lemma_walked_targets_fresh(new->AnyOf_0@, ms@, names, parent, ok, owner, m0);
            assert forall|n: Seq<char>| #[trigger] kind_targets(new, old).contains(n) implies !m0.contains_key(n) by {
                assert(walked_targets(new->AnyOf_0@, ms@).contains(n));
            }
        },
        SchemaForm::OneOf(ms) => {
            lemma_walked_targets_fresh(new->OneOf_0@, ms@, names, parent, ok, owner, m0);
            assert forall|n: Seq<char>| #[trigger] kind_targets(new, old).contains(n) implies !m0.contains_key(n) by {
                assert(walked_targets(new->OneOf_0@, ms@).contains(n));
            }
        },
        _ => {
            assert(kind_targets(new, old) =~= Multiset::empty());
        },
    }
}

proof fn lemma_props_targets_fresh(
    new: Seq<(String, RefOr<SchemaObject>)>,
    old: Seq<(String, RefOr<SchemaObject>)>,
    names: Set<Seq<char>>,
    parent: Seq<char>,
    ok: spec_fn(Seq<char>, SchemaObject) -> bool,
    owner: Seq<char>,
    m0: Map<Seq<char>, SchemaObject>,
)
    requires
        props_lifted(new, old, names, parent, ok),
        plainly_named_props(old),
        parent.len() >= owner.len(),
        forall|n: Seq<char>, x: SchemaObject| #[trigger] ok(n, x) ==> n == owner || !m0.contains_key(n),
    ensures
        forall|n: Seq<char>| #[trigger] props_targets(new, old).contains(n) ==> !m0.contains_key(n),
    decreases old,
{
    if old.len() > 0 {
        assert(new.len() == old.len());
        lemma_props_targets_fresh(new.drop_last(), old.drop_last(), names, parent, ok, owner, m0);
        lemma_slot_targets_fresh(
            new.last().1,
            old.last().1,
            names,
            parent + upper_camel_case(old.last().0@),
            ok,
            owner,
            m0,
        );
        assert(props_targets(new, old) == props_targets(new.drop_last(), old.drop_last()).add(
            slot_targets(new.last().1, old.last().1),
        ));
        assert forall|n: Seq<char>| #[trigger] props_targets(new, old).contains(n) implies !m0.contains_key(n) by {
            if props_targets(new.drop_last(), old.drop_last()).contains(n) {
            } else {
                assert(slot_targets(new.last().1, old.last().1).contains(n));
            }
        }
    } else {
        assert(props_targets(new, old) =~= Multiset::empty());
    }
}

proof fn lemma_members_targets_fresh(
    new: Seq<RefOr<SchemaObject>>,
    old: Seq<RefOr<SchemaObject>>,
    names: Set<Seq<char>>,
    parent: Seq<char>,
    ok: spec_fn(Seq<char>, SchemaObject) -> bool,
    owner: Seq<char>,
    m0: Map<Seq<char>, SchemaObject>,
)
    requires
        members_lifted_to(new, old, names, parent, ok),
        plainly_named_members(old),
        parent.len() >= owner.len(),
        forall|n: Seq<char>, x: SchemaObject| #[trigger] ok(n, x) ==> n == owner || !m0.contains_key(n),
    ensures
        forall|n: Seq<char>| #[trigger] members_targets(new, old).contains(n) ==> !m0.contains_key(n),
    decreases old,
{
    reveal_strlit("AllOf");
    if old.len() > 0 {
        assert(new.len() == old.len());
        lemma_members_targets_fresh(new.drop_last(), old.drop_last(), names, parent, ok, owner, m0);
        lemma_slot_targets_fresh(
            new.last(),
            old.last(),
            names,
            parent + "AllOf"@ + decimal((old.len() - 1) as nat),
            ok,
            owner,
            m0,
        );
        assert(members_targets(new, old) == members_targets(new.drop_last(), old.drop_last()).add(
            slot_targets(new.last(), old.last()),
        ));
        assert forall|n: Seq<char>| #[trigger] members_targets(new, old).contains(n) implies !m0.contains_key(n) by {
            if members_targets(new.drop_last(), old.drop_last()).contains(n) {
            } else {
                assert(slot_targets(new.last(), old.last()).contains(n));
            }
        }
    } else {
        assert(members_targets(new, old) =~= Multiset::empty());
    }
}

proof fn lemma_walked_targets_fresh(
    new: Seq<RefOr<SchemaObject>>,
    old: Seq<RefOr<SchemaObject>>,
    names: Set<Seq<char>>,
    parent: Seq<char>,
    ok: spec_fn(Seq<char>, SchemaObject) -> bool,
    owner: Seq<char>,
    m0: Map<Seq<char>, SchemaObject>,
)
    requires
        members_walked_to(new, old, names, parent, ok),
        plainly_named_members(old),
        parent.len() >= owner.len(),
        forall|n: Seq<char>, x: SchemaObject| #[trigger] ok(n, x) ==> n == owner || !m0.contains_key(n),
    ensures
        forall|n: Seq<char>| #[trigger] walked_targets(new, old).contains(n) ==> !m0.contains_key(n),
    decreases old,
{
    reveal_strlit("Variant");
    if old.len() > 0 {
        assert(new.len() == old.len());
        lemma_walked_targets_fresh(new.drop_last(), old.drop_last(), names, parent, ok, owner, m0);
        let vparent = variant_name_of(parent, (old.len() - 1) as nat, old.last());
        assert(member_walked_to(new.last(), old.last(), names, vparent, ok));
        assert(plainly_named_slot(old.last()));
        if let RefOr::Item(s) = old.last() {
            assert(title_name(s.title) is None);
            assert(vparent == parent + "Variant"@ + decimal((old.len() - 1) as nat));
            let t = new.last()->Item_0;
            lemma_kind_targets_fresh(t.kind, s.kind, names, vparent, ok, owner, m0);
            assert(member_walked_targets(new.last(), old.last()) == kind_targets(t.kind, s.kind));
        }
        assert(walked_targets(new, old) == walked_targets(new.drop_last(), old.drop_last()).add(
            member_walked_targets(new.last(), old.last()),
        ));
        assert forall|n: Seq<char>| #[trigger] walked_targets(new, old).contains(n) implies !m0.contains_key(n) by {
            if walked_targets(new.drop_last(), old.drop_last()).contains(n) {
            } else {
                assert(member_walked_targets(new.last(), old.last()).contains(n));
            }
        }
    } else {
        assert(walked_targets(new, old) =~= Multiset::empty());
    }
}

/// Where no inline schema of the map has a title that names it and the
/// upper camel case of every property name is not empty, every schema lifted
/// out of a schema of the map gets a name that the map did not have: each
/// reference put in place of a complex schema names a fresh schema.
pub proof fn lemma_lifted_names_fresh(
    m0: Map<Seq<char>, SchemaObject>,
    m1: Map<Seq<char>, SchemaObject>,
    org: Map<Seq<char>, SchemaObject>,
    k: Seq<char>,
)
    requires
        normalized_from(m0, m1, org),
        m0.contains_key(k),
        plainly_named_kind(m0[k].kind),
    ensures
        forall|n: Seq<char>| #[trigger] kind_targets(m1[k].kind, m0[k].kind).contains(n) ==> !m0.contains_key(n),
{
    assert(schema_lifted(m1[k], org[k], m1.dom(), k, from_origin(m0, org, k)));
    lemma_kind_targets_fresh(m1[k].kind, m0[k].kind, m1.dom(), k, from_origin(m0, org, k), k, m0);
}


proof fn lemma_props_lifted_at(
    new: Seq<(String, RefOr<SchemaObject>)>,
    old: Seq<(String, RefOr<SchemaObject>)>,
    names: Set<Seq<char>>,
    parent: Seq<char>,
    ok: spec_fn(Seq<char>, SchemaObject) -> bool,
    i: int,
)
    requires
        props_lifted(new, old, names, parent, ok),
        0 <= i < old.len(),
    ensures
        new.len() == old.len(),
        new[i].0 == old[i].0,
        slot_lifted(new[i].1, old[i].1, names, parent + upper_camel_case(old[i].0@), ok),
    decreases old.len(),
{
    if i < old.len() - 1 {
        lemma_props_lifted_at(new.drop_last(), old.drop_last(), names, parent, ok, i);
        assert(new.drop_last()[i] == new[i]);
        assert(old.drop_last()[i] == old[i]);
    }
}

proof fn lemma_members_lifted_at(
    new: Seq<RefOr<SchemaObject>>,
    old: Seq<RefOr<SchemaObject>>,
    names: Set<Seq<char>>,
    parent: Seq<char>,
    ok: spec_fn(Seq<char>, SchemaObject) -> bool,
    i: int,
)
    requires
        members_lifted_to(new, old, names, parent, ok),
        0 <= i < old.len(),
    ensures
        new.len() == old.len(),
        slot_lifted(new[i], old[i], names, parent + "AllOf"@ + decimal(i as nat), ok),
    decreases old.len(),
{
    if i < old.len() - 1 {
        lemma_members_lifted_at(new.drop_last(), old.drop_last(), names, parent, ok, i);
        assert(new.drop_last()[i] == new[i]);
        assert(old.drop_last()[i] == old[i]);
    }
}

/// `k` is the kind of a schema that has its own definition: an `allOf`,
/// `anyOf` or `oneOf`, an object with properties, or a string enum with
/// values.
pub open spec fn defines_a_type(k: SchemaForm) -> bool {
    ||| k is AllOf
    ||| k is AnyOf
    ||| k is OneOf
    ||| k matches SchemaForm::TypeForm(TypeForm::Object(o)) && o.properties@.len() > 0
    ||| k matches SchemaForm::TypeForm(TypeForm::String(st)) && st.enumeration@.len() > 0
}

proof fn lemma_slot_lifts(
    new: RefOr<SchemaObject>,
    old: RefOr<SchemaObject>,
    names: Set<Seq<char>>,
    suggested: Seq<char>,
    ok: spec_fn(Seq<char>, SchemaObject) -> bool,
)
    requires
        slot_lifted(new, old, names, suggested, ok),
        old is Item,
        defines_a_type(old->Item_0.kind),
    ensures
        new is Reference,
        exists|n: Seq<char>| names.contains(n) && new->Reference_0@ == schema_ref(n) && #[trigger] ok(n, old->Item_0),
{
    let s = old->Item_0;
    assert(is_complex_kind(s.kind));
    let r = new->Reference_0;
    let n = choose|n: Seq<char>|
        #[trigger] names.contains(n) && r@ == schema_ref(n) && named_uniquely(
            names,
            preferred_name_of(suggested, s),
            n,
        ) && ok(n, s);
    assert(names.contains(n) && r@ == schema_ref(n) && ok(n, s));
}

proof fn lemma_slot_stays(
    new: RefOr<SchemaObject>,
    old: RefOr<SchemaObject>,
    names: Set<Seq<char>>,
    suggested: Seq<char>,
    ok: spec_fn(Seq<char>, SchemaObject) -> bool,
)
    requires
        slot_lifted(new, old, names, suggested, ok),
        old is Item,
        !defines_a_type(old->Item_0.kind),
    ensures
        new is Item,
        new->Item_0.title == old->Item_0.title,
        new->Item_0.description == old->Item_0.description,
        new->Item_0.nullable == old->Item_0.nullable,
{
    assert(!is_complex_kind(old->Item_0.kind));
}

/// A schema given in place at a property of an object schema of the map is
/// lifted out exactly where it is an `allOf`, `anyOf` or `oneOf`, an object
/// with properties or a string enum with values: the property of the
/// result, under the same name, then holds a reference to a schema of the
/// result whose origin is that schema (or to the owner, where the lifted
/// schema took its name); any other schema stays in place there.
pub proof fn lemma_property_lifted(
    m0: Map<Seq<char>, SchemaObject>,
    m1: Map<Seq<char>, SchemaObject>,
    org: Map<Seq<char>, SchemaObject>,
    k: Seq<char>,
    i: int,
)
    requires
        normalized_from(m0, m1, org),
        m0.contains_key(k),
        m0[k].kind is TypeForm,
        m0[k].kind->TypeForm_0 is Object,
        0 <= i < m0[k].kind->TypeForm_0->Object_0.properties@.len(),
        m0[k].kind->TypeForm_0->Object_0.properties@[i].1 is Item,
    ensures
        ({
            let o = m0[k].kind->TypeForm_0->Object_0;
            let s = o.properties@[i].1->Item_0;
            let p = m1[k].kind->TypeForm_0->Object_0;
            let r = p.properties@[i].1->Reference_0;
            &&& m1[k].kind is TypeForm
            &&& m1[k].kind->TypeForm_0 is Object
            &&& p.properties@.len() == o.properties@.len()
            &&& p.properties@[i].0 == o.properties@[i].0
            &&& defines_a_type(s.kind) ==> p.properties@[i].1 is Reference && exists|n: Seq<char>|
                m1.contains_key(n) && r@ == schema_ref(n) && (n == k || (!m0.contains_key(n) && #[trigger] org[n] == s))
            &&& !defines_a_type(s.kind) ==> p.properties@[i].1 is Item && p.properties@[i].1->Item_0.title
                == s.title && p.properties@[i].1->Item_0.description == s.description
        }),
{
    let o = m0[k].kind->TypeForm_0->Object_0;
    let ok = from_origin(m0, org, k);
    assert(schema_lifted(m1[k], org[k], m1.dom(), k, ok));
    let p = m1[k].kind->TypeForm_0->Object_0;
    lemma_props_lifted_at(p.properties@, o.properties@, m1.dom(), k, ok, i);
    if defines_a_type(o.properties@[i].1->Item_0.kind) {
        lemma_slot_lifts(
            p.properties@[i].1,
            o.properties@[i].1,
            m1.dom(),
            k + upper_camel_case(o.properties@[i].0@),
            ok,
        );
    } else {
        lemma_slot_stays(
            p.properties@[i].1,
            o.properties@[i].1,
            m1.dom(),
            k + upper_camel_case(o.properties@[i].0@),
            ok,
        );
    }
}

/// The same for the items of an array schema of the map: lifted out
/// exactly where they are such a schema, else left in place.
pub proof fn lemma_items_lifted(
    m0: Map<Seq<char>, SchemaObject>,
    m1: Map<Seq<char>, SchemaObject>,
    org: Map<Seq<char>, SchemaObject>,
    k: Seq<char>,
)
    requires
        normalized_from(m0, m1, org),
        m0.contains_key(k),
        m0[k].kind is TypeForm,
        m0[k].kind->TypeForm_0 is Array,
        m0[k].kind->TypeForm_0->Array_0.items is Some,
        *m0[k].kind->TypeForm_0->Array_0.items.unwrap() is Item,
    ensures
        ({
            let s = m0[k].kind->TypeForm_0->Array_0.items.unwrap()->Item_0;
            let c = m1[k].kind->TypeForm_0->Array_0;
            let r = c.items.unwrap()->Reference_0;
            &&& m1[k].kind is TypeForm
            &&& m1[k].kind->TypeForm_0 is Array
            &&& c.items is Some
            &&& defines_a_type(s.kind) ==> *c.items.unwrap() is Reference && exists|n: Seq<char>|
                m1.contains_key(n) && r@ == schema_ref(n) && (n == k || (!m0.contains_key(n) && #[trigger] org[n] == s))
            &&& !defines_a_type(s.kind) ==> *c.items.unwrap() is Item && c.items.unwrap()->Item_0.title == s.title
                && c.items.unwrap()->Item_0.description == s.description
        }),
{
    let a = m0[k].kind->TypeForm_0->Array_0;
    let ok = from_origin(m0, org, k);
    assert(schema_lifted(m1[k], org[k], m1.dom(), k, ok));
    let c = m1[k].kind->TypeForm_0->Array_0;
    if defines_a_type(a.items.unwrap()->Item_0.kind) {
        lemma_slot_lifts(*c.items.unwrap(), *a.items.unwrap(), m1.dom(), k + "Item"@, ok);
    } else {
        lemma_slot_stays(*c.items.unwrap(), *a.items.unwrap(), m1.dom(), k + "Item"@, ok);
    }
}

/// The same for the members of an `allOf` schema of the map: each lifted
/// out exactly where it is such a schema, else left in place.
pub proof fn lemma_all_of_member_lifted(
    m0: Map<Seq<char>, SchemaObject>,
    m1: Map<Seq<char>, SchemaObject>,
    org: Map<Seq<char>, SchemaObject>,
    k: Seq<char>,
    i: int,
)
    requires
        normalized_from(m0, m1, org),
        m0.contains_key(k),
        m0[k].kind is AllOf,
        0 <= i < m0[k].kind->AllOf_0@.len(),
        m0[k].kind->AllOf_0@[i] is Item,
    ensures
        ({
            let ms = m0[k].kind->AllOf_0@;
            let s = ms[i]->Item_0;
            let ns = m1[k].kind->AllOf_0@;
            let r = ns[i]->Reference_0;
            &&& m1[k].kind is AllOf
            &&& ns.len() == ms.len()
            &&& defines_a_type(s.kind) ==> ns[i] is Reference && exists|n: Seq<char>|
                m1.contains_key(n) && r@ == schema_ref(n) && (n == k || (!m0.contains_key(n) && #[trigger] org[n] == s))
            &&& !defines_a_type(s.kind) ==> ns[i] is Item && ns[i]->Item_0.title == s.title
                && ns[i]->Item_0.description == s.description
        }),
{
    let ms = m0[k].kind->AllOf_0@;
    let ok = from_origin(m0, org, k);
    assert(schema_lifted(m1[k], org[k], m1.dom(), k, ok));
    let ns = m1[k].kind->AllOf_0@;
    lemma_members_lifted_at(ns, ms, m1.dom(), k, ok, i);
    if defines_a_type(ms[i]->Item_0.kind) {
        lemma_slot_lifts(ns[i], ms[i], m1.dom(), k + "AllOf"@ + decimal(i as nat), ok);
    } else {
        lemma_slot_stays(ns[i], ms[i], m1.dom(), k + "AllOf"@ + decimal(i as nat), ok);
    }
}


proof fn lemma_members_walked_at(
    new: Seq<RefOr<SchemaObject>>,
    old: Seq<RefOr<SchemaObject>>,
    names: Set<Seq<char>>,
    parent: Seq<char>,
    ok: spec_fn(Seq<char>, SchemaObject) -> bool,
    i: int,
)
    requires
        members_walked_to(new, old, names, parent, ok),
        0 <= i < old.len(),
    ensures
        new.len() == old.len(),
        member_walked_to(new[i], old[i], names, variant_name_of(parent, i as nat, old[i]), ok),
    decreases old.len(),
{
    if i < old.len() - 1 {
        lemma_members_walked_at(new.drop_last(), old.drop_last(), names, parent, ok, i);
        assert(new.drop_last()[i] == new[i]);
        assert(old.drop_last()[i] == old[i]);
    }
}

/// The members of an `anyOf` or `oneOf` schema of the map stay in place,
/// whatever their kind: each member given in place is still given in place
/// in the result, with its title, description and nullability kept (what
/// is nested in it may be lifted out), and each reference stays.
pub proof fn lemma_variant_member_stays(
    m0: Map<Seq<char>, SchemaObject>,
    m1: Map<Seq<char>, SchemaObject>,
    org: Map<Seq<char>, SchemaObject>,
    k: Seq<char>,
    i: int,
)
    requires
        normalized_from(m0, m1, org),
        m0.contains_key(k),
        m0[k].kind is AnyOf || m0[k].kind is OneOf,
        0 <= i < (if m0[k].kind is AnyOf {
            m0[k].kind->AnyOf_0@.len()
        } else {
            m0[k].kind->OneOf_0@.len()
        }),
    ensures
        ({
            let ms = if m0[k].kind is AnyOf {
                m0[k].kind->AnyOf_0@
            } else {
                m0[k].kind->OneOf_0@
            };
            let ns = if m0[k].kind is AnyOf {
                m1[k].kind->AnyOf_0@
            } else {
                m1[k].kind->OneOf_0@
            };
            &&& (m0[k].kind is AnyOf ==> m1[k].kind is AnyOf)
            &&& (m0[k].kind is OneOf ==> m1[k].kind is OneOf)
            &&& ns.len() == ms.len()
            &&& ms[i] is Reference ==> ns[i] == ms[i]
            &&& ms[i] is Item ==> ns[i] is Item && ns[i]->Item_0.title == ms[i]->Item_0.title
                && ns[i]->Item_0.description == ms[i]->Item_0.description
                && ns[i]->Item_0.nullable == ms[i]->Item_0.nullable
        }),
{
    let ok = from_origin(m0, org, k);
    assert(schema_lifted(m1[k], org[k], m1.dom(), k, ok));
    if m0[k].kind is AnyOf {
        lemma_members_walked_at(m1[k].kind->AnyOf_0@, m0[k].kind->AnyOf_0@, m1.dom(), k, ok, i);
    } else {
        lemma_members_walked_at(m1[k].kind->OneOf_0@, m0[k].kind->OneOf_0@, m1.dom(), k, ok, i);
    }
}

} // verus!
