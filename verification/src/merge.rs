//! The properties of an `allOf` schema: those of its members merged in
//! order (a property named again keeps its place and takes the later
//! schema), following references to other schemas once each. The merged
//! properties are kept in an `indexmap::IndexMap`.
use vstd::prelude::*;
use vstd::set_lib::lemma_len_subset;

use crate::model::{RefOr, SchemaObject, SchemaForm, TypeForm};
use crate::name_map::compare_names;
use crate::parse::{last_piece, last_piece_of, SchemaMap};
use crate::text::names_of;

verus! {

broadcast use vstd::set::axiom_set_remove_len;

#[verifier::external_type_specification]
#[verifier::external_body]
#[verifier::reject_recursive_types(K)]
#[verifier::reject_recursive_types(V)]
#[verifier::reject_recursive_types(S)]
pub struct ExIndexMap<K, V, S>(indexmap::IndexMap<K, V, S>);

/// The entries of a map of properties, in the map's order: each name with
/// the slot that it holds.
pub uninterp spec fn prop_entries(m: indexmap::IndexMap<String, &RefOr<SchemaObject>>) -> Seq<(Seq<char>, RefOr<SchemaObject>)>;

/// The position of the first entry named `k`, or -1.
pub open spec fn key_index<V>(s: Seq<(Seq<char>, V)>, k: Seq<char>) -> int
    decreases s.len(),
{
    if s.len() == 0 {
        -1
    } else if s[0].0 == k {
        0
    } else {
        let i = key_index(s.drop_first(), k);
        if i < 0 {
            -1
        } else {
            i + 1
        }
    }
}

/// The entries after inserting `k` with `v`: an entry of that name keeps
/// its place and takes `v`; else the entry goes last.
pub open spec fn entry_inserted<V>(s: Seq<(Seq<char>, V)>, k: Seq<char>, v: V) -> Seq<(Seq<char>, V)> {
    let i = key_index(s, k);
    if i >= 0 {
        s.update(i, (k, v))
    } else {
        s.push((k, v))
    }
}

/// `indexmap::IndexMap::new`: an empty map.
#[verifier::external_body]
fn props_new<'a>() -> (m: indexmap::IndexMap<String, &'a RefOr<SchemaObject>>)
    ensures
        prop_entries(m) == Seq::<(Seq<char>, RefOr<SchemaObject>)>::empty(),
{
    indexmap::IndexMap::new()
}

/// `indexmap::IndexMap::insert`: an entry with an equal key keeps its
/// place and takes the new value; else the entry is appended.
#[verifier::external_body]
fn props_insert<'a>(m: &mut indexmap::IndexMap<String, &'a RefOr<SchemaObject>>, k: String, v: &'a RefOr<SchemaObject>)
    ensures
        prop_entries(*final(m)) == entry_inserted(prop_entries(*old(m)), k@, *v),
{
    m.insert(k, v);
}

/// `IntoIterator::into_iter` of `indexmap::IndexMap`: the entries in the
/// map's order, collected.
#[verifier::external_body]
fn props_into_vec<'a>(m: indexmap::IndexMap<String, &'a RefOr<SchemaObject>>) -> (r: Vec<(String, &'a RefOr<SchemaObject>)>)
    ensures
        r@.map_values(|e: (String, &'a RefOr<SchemaObject>)| (e.0@, *e.1)) == prop_entries(m),
{
    m.into_iter().collect()
}

/// The state of a merge: the properties so far, the required names so far,
/// and the names of the schemas visited.
pub struct MergeState {
    pub props: Seq<(Seq<char>, RefOr<SchemaObject>)>,
    pub required: Seq<Seq<char>>,
    pub visited: Seq<Seq<char>>,
}

/// The properties `ps` inserted, in order, into `entries`.
pub open spec fn props_inserted(
    entries: Seq<(Seq<char>, RefOr<SchemaObject>)>,
    ps: Seq<(String, RefOr<SchemaObject>)>,
) -> Seq<(Seq<char>, RefOr<SchemaObject>)>
    decreases ps.len(),
{
    if ps.len() == 0 {
        entries
    } else {
        entry_inserted(props_inserted(entries, ps.drop_last()), ps.last().0@, ps.last().1)
    }
}

/// Merging a schema: an object adds its properties and required names, an
/// `allOf` merges its members; any other schema adds nothing. `fuel` bounds
/// the references followed (one for each schema of the map suffices).
pub open spec fn merge_schema(s: SchemaObject, m: Map<Seq<char>, SchemaObject>, st: MergeState, fuel: nat) -> MergeState
    decreases fuel, s,
{
    match s.kind {
        SchemaForm::TypeForm(TypeForm::Object(o)) => MergeState {
            props: props_inserted(st.props, o.properties@),
            required: st.required + names_of(o.required@),
            visited: st.visited,
        },
        SchemaForm::AllOf(ms) => merge_members(ms@, m, st, fuel),
        _ => st,
    }
}

/// Merging the members of an `allOf` in order: a member in place is
/// merged; a reference to a schema not yet visited marks it visited and
/// merges it, if the map has it.
pub open spec fn merge_members(ms: Seq<RefOr<SchemaObject>>, m: Map<Seq<char>, SchemaObject>, st: MergeState, fuel: nat) -> MergeState
    decreases fuel, ms,
{
    if ms.len() == 0 {
        st
    } else {
        let st1 = merge_members(ms.subrange(0, ms.len() - 1), m, st, fuel);
        match ms[ms.len() - 1] {
            RefOr::Reference(r) => {
                let key = last_piece(r@);
                if st1.visited.contains(key) {
                    st1
                } else {
                    let st2 = MergeState { visited: st1.visited.push(key), ..st1 };
                    if m.contains_key(key) && fuel > 0 {
                        merge_schema(m[key], m, st2, (fuel - 1) as nat)
                    } else {
                        st2
                    }
                }
            },
            RefOr::Item(s2) => merge_schema(s2, m, st1, fuel),
        }
    }
}

/// The names of the map that are not yet visited.
pub open spec fn unvisited(m: Map<Seq<char>, SchemaObject>, visited: Seq<Seq<char>>) -> Set<Seq<char>> {
    m.dom().filter(|k: Seq<char>| !visited.contains(k))
}

/// The merged properties and required names of the schema `name` of `m`
/// (visited first).
pub open spec fn all_of_merged(name: Seq<char>, m: Map<Seq<char>, SchemaObject>) -> MergeState {
    let st = MergeState { props: Seq::empty(), required: Seq::empty(), visited: seq![name] };
    if m.contains_key(name) {
        merge_schema(m[name], m, st, m.dom().len())
    } else {
        st
    }
}

spec fn state_of(
    props: Seq<(Seq<char>, RefOr<SchemaObject>)>,
    required: Seq<String>,
    visited: Seq<String>,
) -> MergeState {
    MergeState {
        props,
        required: names_of(required),
        visited: names_of(visited),
    }
}

/// Whether `k` is among the names of `v`.
pub(crate) fn contains_name(v: &Vec<String>, k: &str) -> (b: bool)
    ensures
        b == names_of(v@).contains(k@),
{
    let mut i: usize = 0;
    while i < v.len()
        invariant
            i <= v@.len(),
            forall|j: int| 0 <= j < i ==> v@[j]@ != k@,
        decreases v@.len() - i,
    {
        if compare_names(v[i].as_str(), k) == 0 {
            assert(names_of(v@)[i as int] == k@);
            return true;
        }
        i = i + 1;
    }
    proof {
        if names_of(v@).contains(k@) {
            let j = choose|j: int| 0 <= j < v@.len() && #[trigger] names_of(v@)[j] == k@;
            assert(v@[j]@ == k@);
        }
    }
    false
}

proof fn lemma_unvisited_push(m: Map<Seq<char>, SchemaObject>, visited: Seq<Seq<char>>, key: Seq<char>)
    requires
        m.dom().finite(),
    ensures
        unvisited(m, visited).finite(),
        unvisited(m, visited.push(key)) == unvisited(m, visited).remove(key),
        unvisited(m, visited).len() <= m.dom().len(),
{
    lemma_len_subset(unvisited(m, visited), m.dom());
    assert(unvisited(m, visited.push(key)) =~= unvisited(m, visited).remove(key)) by {
        assert forall|k: Seq<char>| #[trigger] visited.push(key).contains(k) <==> visited.contains(k) || k == key by {
            if visited.push(key).contains(k) && k != key {
                let j = choose|j: int| 0 <= j < visited.push(key).len() && #[trigger] visited.push(key)[j] == k;
                assert(visited[j] == k);
            }
            if visited.contains(k) {
                let j = choose|j: int| 0 <= j < visited.len() && #[trigger] visited[j] == k;
                assert(visited.push(key)[j] == k);
            }
            if k == key {
                assert(visited.push(key)[visited.len() as int] == k);
            }
        }
    }
}

proof fn lemma_unvisited_shrinks(m: Map<Seq<char>, SchemaObject>, v0: Seq<Seq<char>>, v1: Seq<Seq<char>>)
    requires
        m.dom().finite(),
        forall|k: Seq<char>| v0.contains(k) ==> v1.contains(k),
    ensures
        unvisited(m, v1).len() <= unvisited(m, v0).len(),
{
    lemma_len_subset(unvisited(m, v0), m.dom());
    lemma_len_subset(unvisited(m, v1), unvisited(m, v0));
}

/// Merges the schema `s` into the properties and required names.
fn merge_member<'a>(
    s: &'a SchemaObject,
    schemas: &'a SchemaMap,
    visited: &mut Vec<String>,
    props: &mut indexmap::IndexMap<String, &'a RefOr<SchemaObject>>,
    required: &mut Vec<String>,
    Ghost(fuel): Ghost<nat>,
)
    requires
        schemas.wf(),
        unvisited(schemas@, names_of(old(visited)@)).len() <= fuel,
    ensures
        state_of(prop_entries(*final(props)), final(required)@, final(visited)@) == merge_schema(
            *s,
            schemas@,
            state_of(prop_entries(*old(props)), old(required)@, old(visited)@),
            fuel,
        ),
        forall|k: Seq<char>|
            names_of(old(visited)@).contains(k) ==> names_of(final(visited)@).contains(k),
    decreases fuel, s, 0nat,
{
    match &s.kind {
        SchemaForm::TypeForm(TypeForm::Object(o)) => {
            let ghost e0 = prop_entries(*props);
            let mut i: usize = 0;
            while i < o.properties.len()
                invariant
                    i <= o.properties@.len(),
                    prop_entries(*props) == props_inserted(e0, o.properties@.subrange(0, i as int)),
                decreases o.properties@.len() - i,
            {
                let entry = &o.properties[i];
                props_insert(props, entry.0.clone(), &entry.1);
                proof {
                    assert(o.properties@.subrange(0, i + 1).drop_last() =~= o.properties@.subrange(0, i as int));
                }
                i = i + 1;
            }
            assert(o.properties@.subrange(0, o.properties@.len() as int) =~= o.properties@);
            let ghost r0 = required@;
            let mut j: usize = 0;
            while j < o.required.len()
                invariant
                    j <= o.required@.len(),
                    required@ == r0 + o.required@.subrange(0, j as int),
                decreases o.required@.len() - j,
            {
                required.push(o.required[j].clone());
                j = j + 1;
                assert(required@ =~= r0 + o.required@.subrange(0, j as int));
            }
            assert(o.required@.subrange(0, o.required@.len() as int) =~= o.required@);
            assert(names_of(required@) =~= names_of(r0)
                + names_of(o.required@));
        },
        SchemaForm::AllOf(all_of) => {
            assert(all_of@.subrange(0, all_of@.len() as int) =~= all_of@);
            merge_all_of(all_of, all_of.len(), schemas, visited, props, required, Ghost(fuel));
            assert(all_of@.subrange(0, all_of@.len() as int) =~= all_of@);
        },
        _ => {},
    }
}

/// Merges the first `n` members of an `allOf`.
fn merge_all_of<'a>(
    ms: &'a Vec<RefOr<SchemaObject>>,
    n: usize,
    schemas: &'a SchemaMap,
    visited: &mut Vec<String>,
    props: &mut indexmap::IndexMap<String, &'a RefOr<SchemaObject>>,
    required: &mut Vec<String>,
    Ghost(fuel): Ghost<nat>,
)
    requires
        schemas.wf(),
        n <= ms@.len(),
        unvisited(schemas@, names_of(old(visited)@)).len() <= fuel,
    ensures
        state_of(prop_entries(*final(props)), final(required)@, final(visited)@) == merge_members(
            ms@.subrange(0, n as int),
            schemas@,
            state_of(prop_entries(*old(props)), old(required)@, old(visited)@),
            fuel,
        ),
        forall|k: Seq<char>|
            names_of(old(visited)@).contains(k) ==> names_of(final(visited)@).contains(k),
    decreases fuel, ms@.subrange(0, n as int), 1nat,
{
    if n == 0 {
        return;
    }
    let ghost v0 = names_of(visited@);
    proof {
        assert(ms@.subrange(0, n as int).subrange(0, n - 1) =~= ms@.subrange(0, n - 1));
    }
    merge_all_of(ms, n - 1, schemas, visited, props, required, Ghost(fuel));
    let ghost v1 = names_of(visited@);
    proof {
        schemas.lemma_entries();
        lemma_unvisited_shrinks(schemas@, v0, v1);
        assert(ms@.subrange(0, n as int)[n - 1] == ms@[n - 1]);
    }
    match &ms[n - 1] {
        RefOr::Reference(reference) => {
            let key = last_piece_of(reference.as_str());
            if !contains_name(visited, key.as_str()) {
                let ghost vv = visited@;
                visited.push(key.clone());
                proof {
                    assert(names_of(visited@) =~= v1.push(key@));
                    lemma_unvisited_push(schemas@, v1, key@);
                    assert forall|k: Seq<char>| v0.contains(k) implies names_of(visited@).contains(k) by {
                        let j = choose|j: int| 0 <= j < v1.len() && #[trigger] v1[j] == k;
                        assert(names_of(visited@)[j] == k);
                    }
                }
                match schemas.get(key.as_str()) {
                    Some(s2) => {
                        proof {
                            assert(unvisited(schemas@, v1).contains(key@));
                        }
                        let ghost v2 = names_of(visited@);
                        merge_member(s2, schemas, visited, props, required, Ghost((fuel - 1) as nat));
                        proof {
                            assert forall|k: Seq<char>| v0.contains(k) implies names_of(visited@).contains(k) by {
                                assert(v2.contains(k));
                            }
                        }
                    },
                    None => {},
                }
            }
        },
        RefOr::Item(s2) => {
            let ghost v2 = names_of(visited@);
            merge_member(s2, schemas, visited, props, required, Ghost(fuel));
            proof {
                assert forall|k: Seq<char>| v0.contains(k) implies names_of(visited@).contains(k) by {
                    assert(v1.contains(k));
                    assert(v2.contains(k));
                }
            }
        },
    }
}

/// The merged properties and required names of the `allOf` schema `name`.
pub(crate) fn resolve_all_of<'a>(name: &str, schemas: &'a SchemaMap) -> (r: (Vec<(String, &'a RefOr<SchemaObject>)>, Vec<String>))
    requires
        schemas.wf(),
    ensures
        r.0@.map_values(|e: (String, &'a RefOr<SchemaObject>)| (e.0@, *e.1)) == all_of_merged(name@, schemas@).props,
        names_of(r.1@) == all_of_merged(name@, schemas@).required,
{
    let mut props = props_new();
    let mut required: Vec<String> = Vec::new();
    let mut visited: Vec<String> = Vec::new();
    visited.push(name.to_owned());
    proof {
        schemas.lemma_entries();
        lemma_len_subset(unvisited(schemas@, names_of(visited@)), schemas@.dom());
        assert(names_of(visited@) =~= seq![name@]);
        assert(names_of(required@) =~= Seq::<Seq<char>>::empty());
    }
    if let Some(s) = schemas.get(name) {
        merge_member(s, schemas, &mut visited, &mut props, &mut required, Ghost(schemas@.dom().len()));
    }
    (props_into_vec(props), required)
}


/// The properties `ps` hold one named `p`.
pub open spec fn has_prop(ps: Seq<(Seq<char>, RefOr<SchemaObject>)>, p: Seq<char>) -> bool {
    exists|j: int| 0 <= j < ps.len() && #[trigger] ps[j].0 == p
}

/// The schema `s` holds, in place, a property named `p`: it is an object
/// with such a property, or an `allOf` a member of which, in place, holds
/// one.
pub open spec fn holds_prop(s: SchemaObject, p: Seq<char>) -> bool
    decreases s,
{
    match s.kind {
        SchemaForm::TypeForm(TypeForm::Object(o)) => exists|j: int|
            0 <= j < o.properties@.len() && #[trigger] o.properties@[j].0@ == p,
        SchemaForm::AllOf(ms) => members_hold_prop(ms@, p),
        _ => false,
    }
}

/// A member, in place, of `ms` holds a property named `p`.
pub open spec fn members_hold_prop(ms: Seq<RefOr<SchemaObject>>, p: Seq<char>) -> bool
    decreases ms,
{
    if ms.len() == 0 {
        false
    } else {
        members_hold_prop(ms.subrange(0, ms.len() - 1), p) || match ms[ms.len() - 1] {
            RefOr::Item(x) => holds_prop(x, p),
            RefOr::Reference(_) => false,
        }
    }
}

/// The schema `s` requires, in place, a property named `q`: it is an
/// object that lists it as required, or an `allOf` a member of which, in
/// place, requires it.
pub open spec fn holds_required(s: SchemaObject, q: Seq<char>) -> bool
    decreases s,
{
    match s.kind {
        SchemaForm::TypeForm(TypeForm::Object(o)) => exists|j: int|
            0 <= j < o.required@.len() && #[trigger] o.required@[j]@ == q,
        SchemaForm::AllOf(ms) => members_hold_required(ms@, q),
        _ => false,
    }
}

/// A member, in place, of `ms` requires a property named `q`.
pub open spec fn members_hold_required(ms: Seq<RefOr<SchemaObject>>, q: Seq<char>) -> bool
    decreases ms,
{
    if ms.len() == 0 {
        false
    } else {
        members_hold_required(ms.subrange(0, ms.len() - 1), q) || match ms[ms.len() - 1] {
            RefOr::Item(x) => holds_required(x, q),
            RefOr::Reference(_) => false,
        }
    }
}

/// The schema `s` names the schema `k` among the members of its `allOf`,
/// or of an `allOf` among them in place.
pub open spec fn refers_to(s: SchemaObject, k: Seq<char>) -> bool
    decreases s,
{
    match s.kind {
        SchemaForm::AllOf(ms) => members_refer_to(ms@, k),
        _ => false,
    }
}

/// A member of `ms` names the schema `k`, or one in place does among its
/// own members.
pub open spec fn members_refer_to(ms: Seq<RefOr<SchemaObject>>, k: Seq<char>) -> bool
    decreases ms,
{
    if ms.len() == 0 {
        false
    } else {
        members_refer_to(ms.subrange(0, ms.len() - 1), k) || match ms[ms.len() - 1] {
            RefOr::Reference(r) => last_piece(r@) == k,
            RefOr::Item(x) => refers_to(x, k),
        }
    }
}

/// The schema named `to` is reached from the one named `from` in at most
/// `d` steps, each from a schema of `m` to one that it names among the
/// members of its `allOf`.
pub open spec fn all_of_reaches(m: Map<Seq<char>, SchemaObject>, from: Seq<char>, to: Seq<char>, d: nat) -> bool
    decreases d,
{
    from == to || (d > 0 && m.contains_key(from) && exists|k: Seq<char>|
        #[trigger] refers_to(m[from], k) && all_of_reaches(m, k, to, (d - 1) as nat))
}

/// Every schema of `m` named in `r.visited` but not in `v0` has all its
/// properties among those of `r`, and all the schemas it names visited.
pub open spec fn closed_since(m: Map<Seq<char>, SchemaObject>, v0: Seq<Seq<char>>, r: MergeState) -> bool {
    forall|k: Seq<char>|
        #![trigger r.visited.contains(k), m.contains_key(k)]
        r.visited.contains(k) && !v0.contains(k) && m.contains_key(k) ==> covered(m, r, k)
}

/// The properties and required names of the schema `k` of `m` are among
/// those of `r`, and the schemas that it names are visited.
pub open spec fn covered(m: Map<Seq<char>, SchemaObject>, r: MergeState, k: Seq<char>) -> bool {
    &&& forall|p: Seq<char>| #[trigger] holds_prop(m[k], p) ==> has_prop(r.props, p)
    &&& forall|q: Seq<char>| #[trigger] holds_required(m[k], q) ==> r.required.contains(q)
    &&& forall|k2: Seq<char>| #[trigger] refers_to(m[k], k2) ==> r.visited.contains(k2)
}

/// `r` keeps what `st` has: its properties, required names and visited
/// names.
pub open spec fn grows(st: MergeState, r: MergeState) -> bool {
    &&& forall|p: Seq<char>| #[trigger] has_prop(st.props, p) ==> has_prop(r.props, p)
    &&& forall|q: Seq<char>| #[trigger] st.required.contains(q) ==> r.required.contains(q)
    &&& forall|k: Seq<char>| #[trigger] st.visited.contains(k) ==> r.visited.contains(k)
}

proof fn lemma_grows_trans(a: MergeState, b: MergeState, c: MergeState)
    requires
        grows(a, b),
        grows(b, c),
    ensures
        grows(a, c),
{
}

proof fn lemma_covered_grows(m: Map<Seq<char>, SchemaObject>, r1: MergeState, r2: MergeState, k: Seq<char>)
    requires
        covered(m, r1, k),
        grows(r1, r2),
    ensures
        covered(m, r2, k),
{
    assert forall|p: Seq<char>| #[trigger] holds_prop(m[k], p) implies has_prop(r2.props, p) by {
        assert(has_prop(r1.props, p));
    }
    assert forall|k2: Seq<char>| #[trigger] refers_to(m[k], k2) implies r2.visited.contains(k2) by {
        assert(r1.visited.contains(k2));
    }
    assert forall|q: Seq<char>| #[trigger] holds_required(m[k], q) implies r2.required.contains(q) by {
        assert(r1.required.contains(q));
    }
}

proof fn lemma_closed_trans(m: Map<Seq<char>, SchemaObject>, v0: Seq<Seq<char>>, r1: MergeState, r2: MergeState)
    requires
        closed_since(m, v0, r1),
        closed_since(m, r1.visited, r2),
        grows(r1, r2),
    ensures
        closed_since(m, v0, r2),
{
    assert forall|k: Seq<char>| r2.visited.contains(k) && !v0.contains(k) && m.contains_key(k) implies covered(
        m,
        r2,
        k,
    ) by {
        if r1.visited.contains(k) {
            lemma_covered_grows(m, r1, r2, k);
        }
    }
}

proof fn lemma_entry_inserted_keys(s: Seq<(Seq<char>, RefOr<SchemaObject>)>, k: Seq<char>, v: RefOr<SchemaObject>)
    ensures
        forall|q: Seq<char>| #[trigger] has_prop(s, q) ==> has_prop(entry_inserted(s, k, v), q),
        has_prop(entry_inserted(s, k, v), k),
{
    lemma_key_index(s, k);
    let r = entry_inserted(s, k, v);
    let i = key_index(s, k);
    assert forall|q: Seq<char>| #[trigger] has_prop(s, q) implies has_prop(r, q) by {
        let j = choose|j: int| 0 <= j < s.len() && #[trigger] s[j].0 == q;
        if i >= 0 {
            assert(r[j].0 == q);
        } else {
            assert(r[j] == s[j]);
        }
    }
    if i >= 0 {
        assert(r[i].0 == k);
    } else {
        assert(r[s.len() as int].0 == k);
    }
}

proof fn lemma_key_index(s: Seq<(Seq<char>, RefOr<SchemaObject>)>, k: Seq<char>)
    ensures
        key_index(s, k) < s.len(),
        key_index(s, k) >= 0 ==> s[key_index(s, k)].0 == k,
    decreases s.len(),
{
    if s.len() > 0 && s[0].0 != k {
        lemma_key_index(s.drop_first(), k);
    }
}

proof fn lemma_props_inserted_keys(e: Seq<(Seq<char>, RefOr<SchemaObject>)>, ps: Seq<(String, RefOr<SchemaObject>)>)
    ensures
        forall|q: Seq<char>| #[trigger] has_prop(e, q) ==> has_prop(props_inserted(e, ps), q),
        forall|j: int| 0 <= j < ps.len() ==> has_prop(props_inserted(e, ps), #[trigger] ps[j].0@),
    decreases ps.len(),
{
    if ps.len() > 0 {
        let prev = ps.drop_last();
        lemma_props_inserted_keys(e, prev);
        let r0 = props_inserted(e, prev);
        lemma_entry_inserted_keys(r0, ps.last().0@, ps.last().1);
        assert forall|j: int| 0 <= j < ps.len() implies has_prop(props_inserted(e, ps), #[trigger] ps[j].0@) by {
            if j < prev.len() {
                assert(prev[j] == ps[j]);
                assert(has_prop(r0, prev[j].0@));
            }
        }
    }
}

/// Merging a schema with enough fuel for the schemas not yet visited takes
/// in every property that it holds in place, visits every schema it names,
/// and leaves every schema it visits anew merged, properties and names.
proof fn lemma_merge_schema_closed(s: SchemaObject, m: Map<Seq<char>, SchemaObject>, st: MergeState, fuel: nat)
    requires
        m.dom().finite(),
        unvisited(m, st.visited).len() <= fuel,
    ensures
        grows(st, merge_schema(s, m, st, fuel)),
        forall|p: Seq<char>| #[trigger] holds_prop(s, p) ==> has_prop(merge_schema(s, m, st, fuel).props, p),
        forall|q: Seq<char>| #[trigger] holds_required(s, q) ==> merge_schema(s, m, st, fuel).required.contains(q),
        forall|k: Seq<char>| #[trigger] refers_to(s, k) ==> merge_schema(s, m, st, fuel).visited.contains(k),
        closed_since(m, st.visited, merge_schema(s, m, st, fuel)),
        unvisited(m, merge_schema(s, m, st, fuel).visited).len() <= unvisited(m, st.visited).len(),
    decreases fuel, s,
{
    let r = merge_schema(s, m, st, fuel);
    match s.kind {
        SchemaForm::TypeForm(TypeForm::Object(o)) => {
            lemma_props_inserted_keys(st.props, o.properties@);
            assert forall|p: Seq<char>| #[trigger] holds_prop(s, p) implies has_prop(r.props, p) by {
                let j = choose|j: int| 0 <= j < o.properties@.len() && #[trigger] o.properties@[j].0@ == p;
                assert(has_prop(r.props, o.properties@[j].0@));
            }
            assert forall|q: Seq<char>| #[trigger] st.required.contains(q) implies r.required.contains(q) by {
                let j = choose|j: int| 0 <= j < st.required.len() && st.required[j] == q;
                assert(r.required[j] == q);
            }
            assert forall|q: Seq<char>| #[trigger] holds_required(s, q) implies r.required.contains(q) by {
                let j = choose|j: int| 0 <= j < o.required@.len() && #[trigger] o.required@[j]@ == q;
                assert(names_of(o.required@)[j] == q);
                assert(r.required[st.required.len() + j] == q);
            }
        },
        SchemaForm::AllOf(ms) => {
            lemma_merge_members_closed(ms@, m, st, fuel);
            assert forall|p: Seq<char>| #[trigger] holds_prop(s, p) implies has_prop(r.props, p) by {
                assert(members_hold_prop(ms@, p));
            }
            assert forall|k: Seq<char>| #[trigger] refers_to(s, k) implies r.visited.contains(k) by {
                assert(members_refer_to(ms@, k));
            }
            assert forall|q: Seq<char>| #[trigger] holds_required(s, q) implies r.required.contains(q) by {
                assert(members_hold_required(ms@, q));
            }
        },
        _ => {},
    }
}

proof fn lemma_merge_members_closed(
    ms: Seq<RefOr<SchemaObject>>,
    m: Map<Seq<char>, SchemaObject>,
    st: MergeState,
    fuel: nat,
)
    requires
        m.dom().finite(),
        unvisited(m, st.visited).len() <= fuel,
    ensures
        grows(st, merge_members(ms, m, st, fuel)),
        forall|p: Seq<char>| #[trigger] members_hold_prop(ms, p) ==> has_prop(merge_members(ms, m, st, fuel).props, p),
        forall|q: Seq<char>| #[trigger] members_hold_required(ms, q) ==> merge_members(ms, m, st, fuel).required.contains(q),
        forall|k: Seq<char>| #[trigger] members_refer_to(ms, k) ==> merge_members(ms, m, st, fuel).visited.contains(k),
        closed_since(m, st.visited, merge_members(ms, m, st, fuel)),
        unvisited(m, merge_members(ms, m, st, fuel).visited).len() <= unvisited(m, st.visited).len(),
    decreases fuel, ms,
{
    if ms.len() > 0 {
        let prev = ms.subrange(0, ms.len() - 1);
        lemma_merge_members_closed(prev, m, st, fuel);
        let st1 = merge_members(prev, m, st, fuel);
        let r = merge_members(ms, m, st, fuel);
        match ms[ms.len() - 1] {
            RefOr::Reference(rf) => {
                let key = last_piece(rf@);
                if !st1.visited.contains(key) {
                    let st2 = MergeState { visited: st1.visited.push(key), ..st1 };
                    lemma_unvisited_push(m, st1.visited, key);
                    assert(st2.visited[st1.visited.len() as int] == key);
                    assert(grows(st1, st2)) by {
                        assert forall|k: Seq<char>| #[trigger] st1.visited.contains(k) implies st2.visited.contains(k) by {
                            let j = choose|j: int| 0 <= j < st1.visited.len() && st1.visited[j] == k;
                            assert(st2.visited[j] == k);
                        }
                    }
                    if m.contains_key(key) {
                        assert(unvisited(m, st1.visited).contains(key));
                        assert(fuel > 0);
                        lemma_merge_schema_closed(m[key], m, st2, (fuel - 1) as nat);
                        lemma_grows_trans(st1, st2, r);
                        assert(covered(m, r, key));
                        assert forall|k: Seq<char>|
                            r.visited.contains(k) && !st1.visited.contains(k) && m.contains_key(k) implies covered(
                            m,
                            r,
                            k,
                        ) by {
                            if k != key {
                                assert(!st2.visited.contains(k)) by {
                                    if st2.visited.contains(k) {
                                        let j = choose|j: int| 0 <= j < st2.visited.len() && st2.visited[j] == k;
                                        if j < st1.visited.len() {
                                            assert(st1.visited[j] == k);
                                        }
                                    }
                                }
                            }
                        }
                    } else {
                        assert forall|k: Seq<char>|
                            r.visited.contains(k) && !st1.visited.contains(k) && m.contains_key(k) implies covered(
                            m,
                            r,
                            k,
                        ) by {
                            let j = choose|j: int| 0 <= j < st2.visited.len() && st2.visited[j] == k;
                            if j < st1.visited.len() {
                                assert(st1.visited[j] == k);
                            }
                        }
                    }
                }
                lemma_closed_trans(m, st.visited, st1, r);
                lemma_grows_trans(st, st1, r);
                assert(r.visited.contains(key)) by {
                    if !st1.visited.contains(key) {
                        let st2 = MergeState { visited: st1.visited.push(key), ..st1 };
                        assert(st2.visited[st1.visited.len() as int] == key);
                        assert(st2.visited.contains(key));
                    }
                }
                assert forall|p: Seq<char>| #[trigger] members_hold_prop(ms, p) implies has_prop(r.props, p) by {
                    if members_hold_prop(prev, p) {
                        assert(has_prop(st1.props, p));
                    }
                }
                assert forall|k: Seq<char>| #[trigger] members_refer_to(ms, k) implies r.visited.contains(k) by {
                    if members_refer_to(prev, k) {
                        assert(st1.visited.contains(k));
                    }
                }
                assert forall|q: Seq<char>| #[trigger] members_hold_required(ms, q) implies r.required.contains(q) by {
                    if members_hold_required(prev, q) {
                        assert(st1.required.contains(q));
                    }
                }
            },
            RefOr::Item(s2) => {
                lemma_merge_schema_closed(s2, m, st1, fuel);
                assert(r == merge_schema(s2, m, st1, fuel));
                assert forall|p: Seq<char>| #[trigger] members_hold_prop(ms, p) implies members_hold_prop(prev, p)
                    || holds_prop(s2, p) by {}
                assert forall|k: Seq<char>| #[trigger] members_refer_to(ms, k) implies members_refer_to(prev, k)
                    || refers_to(s2, k) by {}
                assert forall|q: Seq<char>| #[trigger] members_hold_required(ms, q) implies members_hold_required(prev, q)
                    || holds_required(s2, q) by {}
                lemma_closed_trans(m, st.visited, st1, r);
                lemma_grows_trans(st, st1, r);
                assert forall|p: Seq<char>| #[trigger] members_hold_prop(ms, p) implies has_prop(r.props, p) by {
                    if members_hold_prop(prev, p) {
                        assert(has_prop(st1.props, p));
                    }
                }
                assert forall|k: Seq<char>| #[trigger] members_refer_to(ms, k) implies r.visited.contains(k) by {
                    if members_refer_to(prev, k) {
                        assert(st1.visited.contains(k));
                    }
                }
                assert forall|q: Seq<char>| #[trigger] members_hold_required(ms, q) implies r.required.contains(q) by {
                    if members_hold_required(prev, q) {
                        assert(st1.required.contains(q));
                    }
                }
            },
        }
    }
}

proof fn lemma_reached_covered(
    m: Map<Seq<char>, SchemaObject>,
    r: MergeState,
    name: Seq<char>,
    from: Seq<char>,
    to: Seq<char>,
    d: nat,
)
    requires
        closed_since(m, seq![name], r),
        covered(m, r, name),
        r.visited.contains(from),
        all_of_reaches(m, from, to, d),
        m.contains_key(to),
    ensures
        covered(m, r, to),
    decreases d,
{
    assert(from == name || !seq![name].contains(from)) by {
        if seq![name].contains(from) {
            let j = choose|j: int| 0 <= j < 1 && seq![name][j] == from;
        }
    }
    if from != to {
        let k = choose|k: Seq<char>| #[trigger] refers_to(m[from], k) && all_of_reaches(m, k, to, (d - 1) as nat);
        assert(covered(m, r, from));
        assert(r.visited.contains(k));
        lemma_reached_covered(m, r, name, k, to, (d - 1) as nat);
    }
}

/// Merging an `allOf` takes in every property, and every required name, of
/// every schema that it reaches: of the objects among its members in place,
/// and, through every schema its members name (each followed once), of
/// those of the schemas so reached, down through their own `allOf` members.
pub proof fn lemma_all_of_merges_reached(
    m: Map<Seq<char>, SchemaObject>,
    name: Seq<char>,
    to: Seq<char>,
    d: nat,
)
    requires
        m.dom().finite(),
        m.contains_key(name),
        all_of_reaches(m, name, to, d),
        m.contains_key(to),
    ensures
        forall|p: Seq<char>| #[trigger] holds_prop(m[to], p) ==> has_prop(all_of_merged(name, m).props, p),
        forall|q: Seq<char>| #[trigger] holds_required(m[to], q) ==> all_of_merged(name, m).required.contains(q),
{
    let st = MergeState { props: Seq::empty(), required: Seq::empty(), visited: seq![name] };
    lemma_len_subset(unvisited(m, st.visited), m.dom());
    lemma_merge_schema_closed(m[name], m, st, m.dom().len());
    let r = all_of_merged(name, m);
    assert(r == merge_schema(m[name], m, st, m.dom().len()));
    assert(st.visited.contains(name)) by {
        assert(st.visited[0] == name);
    }
    assert(r.visited.contains(name));
    assert(covered(m, r, name));
    lemma_reached_covered(m, r, name, name, to, d);
}

} // verus!
