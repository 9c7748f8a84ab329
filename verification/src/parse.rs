//! Gathering the schemas of an OpenAPI document into one map: the component
//! schemas, and the inline schemas of responses and request bodies, each
//! under a name made from where it stands.
use vstd::prelude::*;

use crate::model::{
    Responses, Components, MediaType, OpenApi, OperationObject, PathItemObject, RefOr, RequestBodyObject, ResponseObject, SchemaObject,
    ResponseStatus,
};
use crate::name_map::NameMap;
use crate::names::{to_upper_camel_case, upper_camel_case};
use crate::text::{chars_of, decimal, lemma_pieces_len, pieces, push_decimal, push_str, split_pieces};

verus! {

/// Schemas by name.
pub type SchemaMap = NameMap<SchemaObject>;

/// Component schemas that are a bare `$ref` (type aliases), name -> target name.
pub type Aliases = NameMap<String>;

/// The map that inserting the entries of `s` into `m`, in order, gives.
pub open spec fn insert_all<V>(m: Map<Seq<char>, V>, s: Seq<(Seq<char>, V)>) -> Map<Seq<char>, V>
    decreases s.len(),
{
    if s.len() == 0 {
        m
    } else {
        insert_all(m, s.drop_last()).insert(s.last().0, s.last().1)
    }
}

/// Inserting the entries of `a + b` is inserting those of `a`, then those of
/// `b`: where two entries share a name, the later one wins.
pub proof fn lemma_insert_all_concat<V>(
    m: Map<Seq<char>, V>,
    a: Seq<(Seq<char>, V)>,
    b: Seq<(Seq<char>, V)>,
)
    ensures
        insert_all(m, a + b) == insert_all(insert_all(m, a), b),
    decreases b.len(),
{
    if b.len() == 0 {
        assert(a + b =~= a);
    } else {
        assert((a + b).drop_last() =~= a + b.drop_last());
        lemma_insert_all_concat(m, a, b.drop_last());
    }
}

/// The piece of a reference after its last `/` (the whole reference where
/// it has none).
pub open spec fn last_piece(s: Seq<char>) -> Seq<char> {
    pieces(s, '/').last()
}

/// The piece of a media type name between its first and second `/`.
pub open spec fn media_subtype(media: Seq<char>) -> Seq<char> {
    pieces(media, '/')[1]
}

/// How a status code reads (`Display` of `openapiv3::StatusCode`).
pub open spec fn status_text(sc: ResponseStatus) -> Seq<char> {
    match sc {
        ResponseStatus::Code(n) => decimal(n as nat),
        ResponseStatus::Range(n) => decimal(n as nat) + "XX"@,
    }
}

/// The name given to the schema of a response for the media type `media`.
pub open spec fn response_name(
    name: Seq<char>,
    method: Option<Seq<char>>,
    status: Option<ResponseStatus>,
    is_default: bool,
    media: Seq<char>,
) -> Seq<char> {
    upper_camel_case(name) + upper_camel_case(
        match method {
            Some(m) => m,
            None => Seq::<char>::empty(),
        },
    ) + match status {
        Some(sc) => status_text(sc),
        None => Seq::<char>::empty(),
    } + upper_camel_case(media_subtype(media)) + "Response"@ + if is_default {
        "Default"@
    } else {
        Seq::<char>::empty()
    }
}

/// The name given to the schema of a request body for the media type `media`.
pub open spec fn request_body_name(name: Seq<char>, method: Option<Seq<char>>, media: Seq<char>) -> Seq<char> {
    upper_camel_case(name) + upper_camel_case(
        match method {
            Some(m) => m,
            None => Seq::<char>::empty(),
        },
    ) + upper_camel_case(media_subtype(media)) + "RequestBody"@
}

/// Appends how `sc` reads to `s`.
fn push_status_code(s: &mut String, sc: ResponseStatus)
    ensures
        final(s)@ == old(s)@ + status_text(sc),
{
    match sc {
        ResponseStatus::Code(n) => {
            push_decimal(s, n as u64);
        },
        ResponseStatus::Range(n) => {
            push_decimal(s, n as u64);
            push_str(s, "XX");
            assert(final(s)@ =~= old(s)@ + status_text(sc));
        },
    }
}

/// The piece of `media` between its first and second `/`.
fn subtype_of(media: &str) -> (r: String)
    requires
        media@.contains('/'),
    ensures
        r@ == media_subtype(media@),
{
    let p = split_pieces(media, '/');
    proof {
        lemma_pieces_len(media@, '/');
    }
    p[1].clone()
}

/// The name of the schema of a response, built from the response's name,
/// the method, the status code, whether it is the default response, and
/// the media type (whose name must hold a `/`).
pub fn generate_response_name(
    name: String,
    method: Option<&str>,
    status_code: Option<ResponseStatus>,
    is_default: bool,
    media_type: String,
) -> (r: String)
    requires
        media_type@.contains('/'),
    ensures
        r@ == response_name(
            name@,
            match method {
                Some(m) => Some(m@),
                None => None,
            },
            status_code,
            is_default,
            media_type@,
        ),
{
    let mut r = to_upper_camel_case(name.as_str());
    let m = match method {
        Some(m) => to_upper_camel_case(m),
        None => to_upper_camel_case(""),
    };
    push_str(&mut r, m.as_str());
    match status_code {
        Some(sc) => push_status_code(&mut r, sc),
        None => {},
    }
    let sub = to_upper_camel_case(subtype_of(media_type.as_str()).as_str());
    push_str(&mut r, sub.as_str());
    push_str(&mut r, "Response");
    if is_default {
        push_str(&mut r, "Default");
    }
    proof {
        let e = Seq::<char>::empty();
        assert(""@ =~= e) by {
            reveal_strlit("");
        }
    }
    assert(r@ =~= response_name(
        name@,
        match method {
            Some(m) => Some(m@),
            None => None,
        },
        status_code,
        is_default,
        media_type@,
    ));
    r
}

/// The name of the schema of a request body, built from the body's name,
/// the method and the media type (whose name must hold a `/`).
pub fn generate_request_body_name(name: String, method: Option<&str>, media_type: String) -> (r: String)
    requires
        media_type@.contains('/'),
    ensures
        r@ == request_body_name(
            name@,
            match method {
                Some(m) => Some(m@),
                None => None,
            },
            media_type@,
        ),
{
    let mut r = to_upper_camel_case(name.as_str());
    let m = match method {
        Some(m) => to_upper_camel_case(m),
        None => to_upper_camel_case(""),
    };
    push_str(&mut r, m.as_str());
    let sub = to_upper_camel_case(subtype_of(media_type.as_str()).as_str());
    push_str(&mut r, sub.as_str());
    push_str(&mut r, "RequestBody");
    proof {
        let e = Seq::<char>::empty();
        assert(""@ =~= e) by {
            reveal_strlit("");
        }
    }
    assert(r@ =~= request_body_name(
        name@,
        match method {
            Some(m) => Some(m@),
            None => None,
        },
        media_type@,
    ));
    r
}

/// How the schemas of a response's or a request body's media types are named.
pub enum MediaNamer {
    ResponseObject {
        name: String,
        method: Option<&'static str>,
        status: Option<ResponseStatus>,
        is_default: bool,
    },
    RequestBodyObject { name: String, method: Option<&'static str> },
}

impl MediaNamer {
    /// The name of the schema for the media type `media`.
    pub open spec fn name_for(self, media: Seq<char>) -> Seq<char> {
        match self {
            MediaNamer::ResponseObject { name, method, status, is_default } => response_name(
                name@,
                match method {
                    Some(m) => Some(m@),
                    None => None,
                },
                status,
                is_default,
                media,
            ),
            MediaNamer::RequestBodyObject { name, method } => request_body_name(
                name@,
                match method {
                    Some(m) => Some(m@),
                    None => None,
                },
                media,
            ),
        }
    }

    fn apply(&self, media: String) -> (r: String)
        requires
            media@.contains('/'),
        ensures
            r@ == self.name_for(media@),
    {
        match self {
            MediaNamer::ResponseObject { name, method, status, is_default } => generate_response_name(
                name.clone(),
                *method,
                *status,
                *is_default,
                media,
            ),
            MediaNamer::RequestBodyObject { name, method } => generate_request_body_name(
                name.clone(),
                *method,
                media,
            ),
        }
    }
}

/// Every media type name of `content` holds a `/`.
pub open spec fn media_names_ok(content: Seq<(String, MediaType)>) -> bool {
    forall|i: int| 0 <= i < content.len() ==> (#[trigger] content[i]).0@.contains('/')
}

/// The named schemas given in place in `content`, in order.
pub open spec fn media_entries(content: Seq<(String, MediaType)>, namer: MediaNamer) -> Seq<
    (Seq<char>, SchemaObject),
>
    decreases content.len(),
{
    if content.len() == 0 {
        Seq::empty()
    } else {
        let rest = media_entries(content.drop_last(), namer);
        match content.last().1.schema {
            Some(RefOr::Item(s)) => rest.push((namer.name_for(content.last().0@), s)),
            _ => rest,
        }
    }
}

/// Inserts into `schemas` the schemas given in place in `content`, under the
/// names that `namer` gives them.
fn from_content(schemas: &mut SchemaMap, namer: &MediaNamer, content: Vec<(String, MediaType)>)
    requires
        old(schemas).wf(),
        media_names_ok(content@),
    ensures
        final(schemas).wf(),
        final(schemas)@ == insert_all(old(schemas)@, media_entries(content@, *namer)),
{
    let ghost all = content@;
    let mut content = content;
    let n = content.len();
    let mut i: usize = 0;
    while content.len() > 0
        invariant
            schemas.wf(),
            i + content@.len() == all.len(),
            content@ == all.subrange(i as int, all.len() as int),
            media_names_ok(all),
            all.len() == n,
            schemas@ == insert_all(old(schemas)@, media_entries(all.subrange(0, i as int), *namer)),
        decreases content@.len(),
    {
        let (mtn, mt) = content.remove(0);
        assert(all[i as int].0@ == mtn@);
        let ghost prev = media_entries(all.subrange(0, i as int), *namer);
        let ghost next = media_entries(all.subrange(0, i + 1), *namer);
        let name = namer.apply(mtn);
        proof {
            assert(all.subrange(0, i + 1).drop_last() =~= all.subrange(0, i as int));
            assert(all.subrange(0, i + 1).last() == all[i as int]);
            let ghost g = mt.schema;
            match g {
                Some(RefOr::Item(sch)) => {
                    assert(next == prev.push((name@, sch)));
                    assert(next.drop_last() =~= prev);
                },
                _ => {
                    assert(next == prev);
                },
            }
        }
        from_single_media_type(schemas, name, mt);
        i = i + 1;
        assert(content@ =~= all.subrange(i as int, all.len() as int));
    }
    assert(all.subrange(0, all.len() as int) =~= all);
}

/// Inserts the schema of `mt` under `name`, where it is given in place.
fn from_single_media_type(schemas: &mut SchemaMap, name: String, mt: MediaType)
    requires
        old(schemas).wf(),
    ensures
        final(schemas).wf(),
        final(schemas)@ == match mt.schema {
            Some(RefOr::Item(s)) => old(schemas)@.insert(name@, s),
            _ => old(schemas)@,
        },
{
    if let Some(refor) = mt.schema {
        if let RefOr::Item(i) = refor {
            schemas.insert(name, i);
        }
    }
}

/// Inserts the schemas of a response under the names that `namer` gives them.
fn from_single_response(schemas: &mut SchemaMap, namer: &MediaNamer, resp: ResponseObject)
    requires
        old(schemas).wf(),
        media_names_ok(resp.content@),
    ensures
        final(schemas).wf(),
        final(schemas)@ == insert_all(old(schemas)@, media_entries(resp.content@, *namer)),
{
    from_content(schemas, namer, resp.content);
}

/// Inserts the schemas of a request body under the names that `namer` gives them.
fn from_single_body(schemas: &mut SchemaMap, namer: &MediaNamer, body: RequestBodyObject)
    requires
        old(schemas).wf(),
        media_names_ok(body.content@),
    ensures
        final(schemas).wf(),
        final(schemas)@ == insert_all(old(schemas)@, media_entries(body.content@, *namer)),
{
    from_content(schemas, namer, body.content);
}

/// The named schemas that the component schemas give in place, in order.
pub open spec fn component_schema_entries(m: Seq<(String, RefOr<SchemaObject>)>) -> Seq<(Seq<char>, SchemaObject)>
    decreases m.len(),
{
    if m.len() == 0 {
        Seq::empty()
    } else {
        let rest = component_schema_entries(m.drop_last());
        match m.last().1 {
            RefOr::Item(s) => rest.push((m.last().0@, s)),
            _ => rest,
        }
    }
}

/// The aliases that the component schemas give by reference: name, and the
/// piece of the reference after its last `/`.
pub open spec fn component_alias_entries(m: Seq<(String, RefOr<SchemaObject>)>) -> Seq<(Seq<char>, Seq<char>)>
    decreases m.len(),
{
    if m.len() == 0 {
        Seq::empty()
    } else {
        let rest = component_alias_entries(m.drop_last());
        match m.last().1 {
            RefOr::Reference(r) => rest.push((m.last().0@, last_piece(r@))),
            _ => rest,
        }
    }
}

/// The last piece of `s` after `/`.
pub(crate) fn last_piece_of(s: &str) -> (r: String)
    ensures
        r@ == last_piece(s@),
{
    let p = split_pieces(s, '/');
    proof {
        lemma_pieces_len(s@, '/');
    }
    p[p.len() - 1].clone()
}

/// Sorts the component schemas into the schema map (those given in place)
/// and the aliases (those given by reference).
fn gather_from_schemas(
    schemas: &mut SchemaMap,
    aliases: &mut Aliases,
    map: Vec<(String, RefOr<SchemaObject>)>,
)
    requires
        old(schemas).wf(),
        old(aliases).wf(),
    ensures
        final(schemas).wf(),
        final(aliases).wf(),
        final(schemas)@ == insert_all(old(schemas)@, component_schema_entries(map@)),
        final(aliases)@.map_values(|t: String| t@) == insert_all(
            old(aliases)@.map_values(|t: String| t@),
            component_alias_entries(map@),
        ),
{
    let ghost all = map@;
    let mut map = map;
    let n = map.len();
    let mut i: usize = 0;
    while map.len() > 0
        invariant
            schemas.wf(),
            aliases.wf(),
            i + map@.len() == all.len(),
            all.len() == n,
            map@ == all.subrange(i as int, all.len() as int),
            schemas@ == insert_all(old(schemas)@, component_schema_entries(all.subrange(0, i as int))),
            aliases@.map_values(|t: String| t@) == insert_all(
                old(aliases)@.map_values(|t: String| t@),
                component_alias_entries(all.subrange(0, i as int)),
            ),
        decreases map@.len(),
    {
        let (name, refor) = map.remove(0);
        let ghost g = refor;
        let ghost pre = all.subrange(0, i as int);
        let ghost post = all.subrange(0, i + 1);
        proof {
            assert(post.drop_last() =~= pre);
            assert(post.last() == all[i as int]);
        }
        match refor {
            RefOr::Item(it) => {
                proof {
                    let e = component_schema_entries(post);
                    assert(e.drop_last() =~= component_schema_entries(pre));
                }
                schemas.insert(name, it);
            },
            RefOr::Reference(reference) => {
                let target = last_piece_of(reference.as_str());
                let ghost before = aliases@;
                proof {
                    let e = component_alias_entries(post);
                    assert(e.drop_last() =~= component_alias_entries(pre));
                }
                aliases.insert(name, target);
                proof {
                    assert(aliases@.map_values(|t: String| t@) =~= before.map_values(
                        |t: String| t@,
                    ).insert(name@, target@));
                }
            },
        }
        i = i + 1;
        assert(map@ =~= all.subrange(i as int, all.len() as int));
    }
    assert(all.subrange(0, all.len() as int) =~= all);
}

/// Every response given in place in `m` names its media types with a `/`.
pub open spec fn responses_ok(m: Seq<(String, RefOr<ResponseObject>)>) -> bool {
    forall|i: int|
        0 <= i < m.len() ==> match (#[trigger] m[i]).1 {
            RefOr::Item(r) => media_names_ok(r.content@),
            _ => true,
        }
}

/// Every request body given in place in `m` names its media types with a `/`.
pub open spec fn bodies_ok(m: Seq<(String, RefOr<RequestBodyObject>)>) -> bool {
    forall|i: int|
        0 <= i < m.len() ==> match (#[trigger] m[i]).1 {
            RefOr::Item(b) => media_names_ok(b.content@),
            _ => true,
        }
}

/// The named schemas of the component responses, in order.
pub open spec fn component_response_entries(m: Seq<(String, RefOr<ResponseObject>)>) -> Seq<
    (Seq<char>, SchemaObject),
>
    decreases m.len(),
{
    if m.len() == 0 {
        Seq::empty()
    } else {
        component_response_entries(m.drop_last()) + match m.last().1 {
            RefOr::Item(r) => media_entries(
                r.content@,
                MediaNamer::ResponseObject { name: m.last().0, method: None, status: None, is_default: false },
            ),
            _ => Seq::empty(),
        }
    }
}

/// The named schemas of the component request bodies, in order.
pub open spec fn component_body_entries(m: Seq<(String, RefOr<RequestBodyObject>)>) -> Seq<
    (Seq<char>, SchemaObject),
>
    decreases m.len(),
{
    if m.len() == 0 {
        Seq::empty()
    } else {
        component_body_entries(m.drop_last()) + match m.last().1 {
            RefOr::Item(b) => media_entries(
                b.content@,
                MediaNamer::RequestBodyObject { name: m.last().0, method: None },
            ),
            _ => Seq::empty(),
        }
    }
}

/// Inserts the schemas of the component responses.
fn gather_from_responses(schemas: &mut SchemaMap, map: Vec<(String, RefOr<ResponseObject>)>)
    requires
        old(schemas).wf(),
        responses_ok(map@),
    ensures
        final(schemas).wf(),
        final(schemas)@ == insert_all(old(schemas)@, component_response_entries(map@)),
{
    let ghost all = map@;
    let mut map = map;
    let n = map.len();
    let mut i: usize = 0;
    while map.len() > 0
        invariant
            schemas.wf(),
            i + map@.len() == all.len(),
            all.len() == n,
            responses_ok(all),
            map@ == all.subrange(i as int, all.len() as int),
            schemas@ == insert_all(old(schemas)@, component_response_entries(all.subrange(0, i as int))),
        decreases map@.len(),
    {
        let (name, refor) = map.remove(0);
        let ghost pre = all.subrange(0, i as int);
        let ghost post = all.subrange(0, i + 1);
        let ghost before = schemas@;
        proof {
            assert(post.drop_last() =~= pre);
            assert(post.last() == all[i as int]);
            assert(all[i as int] == (name, refor));
        }
        match refor {
            RefOr::Item(resp) => {
                let namer = MediaNamer::ResponseObject {
                    name: name,
                    method: None,
                    status: None,
                    is_default: false,
                };
                let ghost part = media_entries(resp.content@, namer);
                from_single_response(schemas, &namer, resp);
                proof {
                    lemma_insert_all_concat(old(schemas)@, component_response_entries(pre), part);
                }
            },
            RefOr::Reference(_) => {
                proof {
                    assert(component_response_entries(post) =~= component_response_entries(pre));
                }
            },
        }
        i = i + 1;
        assert(map@ =~= all.subrange(i as int, all.len() as int));
    }
    assert(all.subrange(0, all.len() as int) =~= all);
}

/// Inserts the schemas of the component request bodies.
fn gather_from_bodies(schemas: &mut SchemaMap, map: Vec<(String, RefOr<RequestBodyObject>)>)
    requires
        old(schemas).wf(),
        bodies_ok(map@),
    ensures
        final(schemas).wf(),
        final(schemas)@ == insert_all(old(schemas)@, component_body_entries(map@)),
{
    let ghost all = map@;
    let mut map = map;
    let n = map.len();
    let mut i: usize = 0;
    while map.len() > 0
        invariant
            schemas.wf(),
            i + map@.len() == all.len(),
            all.len() == n,
            bodies_ok(all),
            map@ == all.subrange(i as int, all.len() as int),
            schemas@ == insert_all(old(schemas)@, component_body_entries(all.subrange(0, i as int))),
        decreases map@.len(),
    {
        let (name, refor) = map.remove(0);
        let ghost pre = all.subrange(0, i as int);
        let ghost post = all.subrange(0, i + 1);
        proof {
            assert(post.drop_last() =~= pre);
            assert(post.last() == all[i as int]);
            assert(all[i as int] == (name, refor));
        }
        match refor {
            RefOr::Item(body) => {
                let namer = MediaNamer::RequestBodyObject { name: name, method: None };
                let ghost part = media_entries(body.content@, namer);
                from_single_body(schemas, &namer, body);
                proof {
                    lemma_insert_all_concat(old(schemas)@, component_body_entries(pre), part);
                }
            },
            RefOr::Reference(_) => {
                proof {
                    assert(component_body_entries(post) =~= component_body_entries(pre));
                }
            },
        }
        i = i + 1;
        assert(map@ =~= all.subrange(i as int, all.len() as int));
    }
    assert(all.subrange(0, all.len() as int) =~= all);
}

/// The operations of a path item with their methods, in the order `get`,
/// `put`, `post`, `delete`, `options`, `head`, `patch`, `trace`, leaving out
/// the absent ones (what `IntoIterator` of `openapiv3::PathItem` yields).
pub open spec fn operations(pi: PathItemObject) -> Seq<(&'static str, OperationObject)> {
    present("get", pi.get) + present("put", pi.put) + present("post", pi.post) + present(
        "delete",
        pi.delete,
    ) + present("options", pi.options) + present("head", pi.head) + present("patch", pi.patch)
        + present("trace", pi.trace)
}

/// `(method, op)`, where `op` is present.
pub open spec fn present(method: &'static str, op: Option<OperationObject>) -> Seq<(&'static str, OperationObject)> {
    match op {
        Some(o) => seq![(method, o)],
        None => Seq::empty(),
    }
}

fn push_present(v: &mut Vec<(&'static str, OperationObject)>, method: &'static str, op: Option<OperationObject>)
    ensures
        final(v)@ == old(v)@ + present(method, op),
{
    match op {
        Some(o) => {
            v.push((method, o));
            assert(final(v)@ =~= old(v)@ + present(method, op));
        },
        None => {
            assert(final(v)@ =~= old(v)@ + present(method, op));
        },
    }
}

/// The operations of a path item with their methods.
fn path_operations(pi: PathItemObject) -> (r: Vec<(&'static str, OperationObject)>)
    ensures
        r@ == operations(pi),
{
    let ghost g = pi;
    let mut r: Vec<(&'static str, OperationObject)> = Vec::new();
    push_present(&mut r, "get", pi.get);
    push_present(&mut r, "put", pi.put);
    push_present(&mut r, "post", pi.post);
    push_present(&mut r, "delete", pi.delete);
    push_present(&mut r, "options", pi.options);
    push_present(&mut r, "head", pi.head);
    push_present(&mut r, "patch", pi.patch);
    push_present(&mut r, "trace", pi.trace);
    assert(r@ =~= operations(g));
    r
}

/// Every response and request body given in place in `op` names its media
/// types with a `/`.
pub open spec fn operation_ok(op: OperationObject) -> bool {
    &&& match op.request_body {
        Some(RefOr::Item(b)) => media_names_ok(b.content@),
        _ => true,
    }
    &&& match op.responses.default {
        Some(RefOr::Item(r)) => media_names_ok(r.content@),
        _ => true,
    }
    &&& forall|i: int|
        0 <= i < op.responses.responses@.len() ==> match (#[trigger] op.responses.responses@[i]).1 {
            RefOr::Item(r) => media_names_ok(r.content@),
            _ => true,
        }
}

/// Every operation of `pi` is `operation_ok`.
pub open spec fn path_item_ok(pi: PathItemObject) -> bool {
    forall|i: int| 0 <= i < operations(pi).len() ==> operation_ok(#[trigger] operations(pi)[i].1)
}

/// Every path item given in place in `m` is `path_item_ok`.
pub open spec fn paths_ok(m: Seq<(String, RefOr<PathItemObject>)>) -> bool {
    forall|i: int|
        0 <= i < m.len() ==> match (#[trigger] m[i]).1 {
            RefOr::Item(pi) => path_item_ok(pi),
            _ => true,
        }
}

/// Every media type name that naming the schemas of `doc` reads holds a
/// `/` (the names are made of what follows it).
pub open spec fn document_ok(doc: OpenApi) -> bool {
    &&& match doc.components {
        Some(c) => responses_ok(c.responses@) && bodies_ok(c.request_bodies@),
        None => true,
    }
    &&& paths_ok(doc.paths@)
}

/// The named schemas of the responses of an operation, by status code.
pub open spec fn status_entries(
    name: String,
    method: &'static str,
    rs: Seq<(ResponseStatus, RefOr<ResponseObject>)>,
) -> Seq<(Seq<char>, SchemaObject)>
    decreases rs.len(),
{
    if rs.len() == 0 {
        Seq::empty()
    } else {
        status_entries(name, method, rs.drop_last()) + match rs.last().1 {
            RefOr::Item(r) => media_entries(
                r.content@,
                MediaNamer::ResponseObject {
                    name: name,
                    method: Some(method),
                    status: Some(rs.last().0),
                    is_default: false,
                },
            ),
            _ => Seq::empty(),
        }
    }
}

/// The named schemas of an operation: of its request body, its default
/// response, then its responses by status code.
pub open spec fn operation_entries(name: String, method: &'static str, op: OperationObject) -> Seq<
    (Seq<char>, SchemaObject),
> {
    (match op.request_body {
        Some(RefOr::Item(b)) => media_entries(
            b.content@,
            MediaNamer::RequestBodyObject { name: name, method: Some(method) },
        ),
        _ => Seq::empty(),
    }) + (match op.responses.default {
        Some(RefOr::Item(r)) => media_entries(
            r.content@,
            MediaNamer::ResponseObject { name: name, method: Some(method), status: None, is_default: true },
        ),
        _ => Seq::empty(),
    }) + status_entries(name, method, op.responses.responses@)
}

/// The named schemas of a path item's operations, in order.
pub open spec fn path_item_entries(name: String, ops: Seq<(&'static str, OperationObject)>) -> Seq<
    (Seq<char>, SchemaObject),
>
    decreases ops.len(),
{
    if ops.len() == 0 {
        Seq::empty()
    } else {
        path_item_entries(name, ops.drop_last()) + operation_entries(
            name,
            ops.last().0,
            ops.last().1,
        )
    }
}

/// The named schemas of the paths, in order.
pub open spec fn path_entries(m: Seq<(String, RefOr<PathItemObject>)>) -> Seq<(Seq<char>, SchemaObject)>
    decreases m.len(),
{
    if m.len() == 0 {
        Seq::empty()
    } else {
        path_entries(m.drop_last()) + match m.last().1 {
            RefOr::Item(pi) => path_item_entries(m.last().0, operations(pi)),
            _ => Seq::empty(),
        }
    }
}

/// Inserts the schemas of one operation.
fn from_single_operation(schemas: &mut SchemaMap, name: &String, method: &'static str, operation: OperationObject)
    requires
        old(schemas).wf(),
        operation_ok(operation),
    ensures
        final(schemas).wf(),
        final(schemas)@ == insert_all(old(schemas)@, operation_entries(*name, method, operation)),
{
    let ghost op = operation;
    let ghost body_part = match op.request_body {
        Some(RefOr::Item(b)) => media_entries(
            b.content@,
            MediaNamer::RequestBodyObject { name: *name, method: Some(method) },
        ),
        _ => Seq::empty(),
    };
    let ghost default_part = match op.responses.default {
        Some(RefOr::Item(r)) => media_entries(
            r.content@,
            MediaNamer::ResponseObject { name: *name, method: Some(method), status: None, is_default: true },
        ),
        _ => Seq::empty(),
    };
    let OperationObject { request_body, responses } = operation;
    if let Some(RefOr::Item(body)) = request_body {
        let namer = MediaNamer::RequestBodyObject { name: name.clone(), method: Some(method) };
        from_single_body(schemas, &namer, body);
    }
    let ghost s1 = schemas@;
    assert(s1 == insert_all(old(schemas)@, body_part));
    let Responses { default, responses: by_status } = responses;
    if let Some(RefOr::Item(resp)) = default {
        let namer = MediaNamer::ResponseObject {
            name: name.clone(),
            method: Some(method),
            status: None,
            is_default: true,
        };
        from_single_response(schemas, &namer, resp);
    }
    let ghost s2 = schemas@;
    assert(s2 == insert_all(s1, default_part));
    let ghost all = by_status@;
    let mut map = by_status;
    let n = map.len();
    let mut i: usize = 0;
    while map.len() > 0
        invariant
            schemas.wf(),
            i + map@.len() == all.len(),
            all.len() == n,
            all == op.responses.responses@,
            operation_ok(op),
            map@ == all.subrange(i as int, all.len() as int),
            schemas@ == insert_all(s2, status_entries(*name, method, all.subrange(0, i as int))),
        decreases map@.len(),
    {
        let (status_code, refor) = map.remove(0);
        let ghost pre = all.subrange(0, i as int);
        let ghost post = all.subrange(0, i + 1);
        proof {
            assert(post.drop_last() =~= pre);
            assert(post.last() == all[i as int]);
            assert(all[i as int] == (status_code, refor));
        }
        match refor {
            RefOr::Item(resp) => {
                let namer = MediaNamer::ResponseObject {
                    name: name.clone(),
                    method: Some(method),
                    status: Some(status_code),
                    is_default: false,
                };
                let ghost part = media_entries(resp.content@, namer);
                from_single_response(schemas, &namer, resp);
                proof {
                    lemma_insert_all_concat(s2, status_entries(*name, method, pre), part);
                }
            },
            RefOr::Reference(_) => {
                proof {
                    assert(status_entries(*name, method, post) =~= status_entries(*name, method, pre));
                }
            },
        }
        i = i + 1;
        assert(map@ =~= all.subrange(i as int, all.len() as int));
    }
    proof {
        assert(all.subrange(0, all.len() as int) =~= all);
        lemma_insert_all_concat(old(schemas)@, body_part, default_part);
        lemma_insert_all_concat(
            old(schemas)@,
            body_part + default_part,
            status_entries(*name, method, all),
        );
    }
}

/// Inserts the schemas of the operations of one path item.
fn from_single_path_item(schemas: &mut SchemaMap, name: String, pi: PathItemObject)
    requires
        old(schemas).wf(),
        path_item_ok(pi),
    ensures
        final(schemas).wf(),
        final(schemas)@ == insert_all(old(schemas)@, path_item_entries(name, operations(pi))),
{
    let ghost all = operations(pi);
    let mut ops = path_operations(pi);
    let n = ops.len();
    let mut i: usize = 0;
    while ops.len() > 0
        invariant
            schemas.wf(),
            i + ops@.len() == all.len(),
            all.len() == n,
            forall|j: int| 0 <= j < all.len() ==> operation_ok(#[trigger] all[j].1),
            ops@ == all.subrange(i as int, all.len() as int),
            schemas@ == insert_all(old(schemas)@, path_item_entries(name, all.subrange(0, i as int))),
        decreases ops@.len(),
    {
        let (method, operation) = ops.remove(0);
        let ghost pre = all.subrange(0, i as int);
        let ghost post = all.subrange(0, i + 1);
        proof {
            assert(post.drop_last() =~= pre);
            assert(post.last() == all[i as int]);
            assert(all[i as int] == (method, operation));
        }
        let ghost part = operation_entries(name, method, operation);
        from_single_operation(schemas, &name, method, operation);
        proof {
            lemma_insert_all_concat(old(schemas)@, path_item_entries(name, pre), part);
        }
        i = i + 1;
        assert(ops@ =~= all.subrange(i as int, all.len() as int));
    }
    assert(all.subrange(0, all.len() as int) =~= all);
}

/// Inserts the schemas of the paths.
fn gather_from_paths(schemas: &mut SchemaMap, map: Vec<(String, RefOr<PathItemObject>)>)
    requires
        old(schemas).wf(),
        paths_ok(map@),
    ensures
        final(schemas).wf(),
        final(schemas)@ == insert_all(old(schemas)@, path_entries(map@)),
{
    let ghost all = map@;
    let mut map = map;
    let n = map.len();
    let mut i: usize = 0;
    while map.len() > 0
        invariant
            schemas.wf(),
            i + map@.len() == all.len(),
            all.len() == n,
            paths_ok(all),
            map@ == all.subrange(i as int, all.len() as int),
            schemas@ == insert_all(old(schemas)@, path_entries(all.subrange(0, i as int))),
        decreases map@.len(),
    {
        let (name, refor) = map.remove(0);
        let ghost pre = all.subrange(0, i as int);
        let ghost post = all.subrange(0, i + 1);
        proof {
            assert(post.drop_last() =~= pre);
            assert(post.last() == all[i as int]);
            assert(all[i as int] == (name, refor));
        }
        match refor {
            RefOr::Item(pi) => {
                let ghost part = path_item_entries(name, operations(pi));
                from_single_path_item(schemas, name, pi);
                proof {
                    lemma_insert_all_concat(old(schemas)@, path_entries(pre), part);
                }
            },
            RefOr::Reference(_) => {
                proof {
                    assert(path_entries(post) =~= path_entries(pre));
                }
            },
        }
        i = i + 1;
        assert(map@ =~= all.subrange(i as int, all.len() as int));
    }
    assert(all.subrange(0, all.len() as int) =~= all);
}

/// All the named schemas of a document, in the order in which they are
/// inserted into the schema map: the component schemas, responses and
/// request bodies, then the paths.
pub open spec fn gathered_schemas(doc: OpenApi) -> Seq<(Seq<char>, SchemaObject)> {
    (match doc.components {
        Some(c) => component_schema_entries(c.schemas@) + component_response_entries(c.responses@)
            + component_body_entries(c.request_bodies@),
        None => Seq::empty(),
    }) + path_entries(doc.paths@)
}

/// The aliases of a document: its component schemas given by reference.
pub open spec fn gathered_aliases(doc: OpenApi) -> Seq<(Seq<char>, Seq<char>)> {
    match doc.components {
        Some(c) => component_alias_entries(c.schemas@),
        None => Seq::empty(),
    }
}

/// Gathers the schemas of a document into one map, where a later schema
/// of the same name takes the place of an earlier one, and its type
/// aliases into another.
pub fn parse_schema(oapi: OpenApi) -> (r: (SchemaMap, Aliases))
    requires
        document_ok(oapi),
    ensures
        r.0.wf(),
        r.1.wf(),
        r.0@ == insert_all(Map::empty(), gathered_schemas(oapi)),
        r.1@.map_values(|t: String| t@) == insert_all(Map::empty(), gathered_aliases(oapi)),
{
    let ghost doc = oapi;
    let mut schemas: SchemaMap = NameMap::new();
    let mut aliases: Aliases = NameMap::new();
    assert(aliases@.map_values(|t: String| t@) =~= Map::<Seq<char>, Seq<char>>::empty());
    let OpenApi { components, paths } = oapi;
    let ghost comp_part = match doc.components {
        Some(c) => component_schema_entries(c.schemas@) + component_response_entries(c.responses@)
            + component_body_entries(c.request_bodies@),
        None => Seq::empty(),
    };
    if let Some(components) = components {
        let Components { schemas: cs, responses, request_bodies } = components;
        let ghost a = component_schema_entries(cs@);
        let ghost b = component_response_entries(responses@);
        let ghost c = component_body_entries(request_bodies@);
        gather_from_schemas(&mut schemas, &mut aliases, cs);
        gather_from_responses(&mut schemas, responses);
        gather_from_bodies(&mut schemas, request_bodies);
        proof {
            lemma_insert_all_concat(Map::empty(), a, b);
            lemma_insert_all_concat(Map::empty(), a + b, c);
        }
    }
    let ghost mid = schemas@;
    assert(mid == insert_all(Map::empty(), comp_part));
    gather_from_paths(&mut schemas, paths);
    proof {
        lemma_insert_all_concat(Map::empty(), comp_part, path_entries(doc.paths@));
    }
    (schemas, aliases)
}


/// Whether `s` holds a `/`.
fn has_slash(s: &str) -> (b: bool)
    ensures
        b == s@.contains('/'),
{
    let cs = chars_of(s);
    let mut i: usize = 0;
    while i < cs.len()
        invariant
            cs@ == s@,
            i <= cs@.len(),
            forall|j: int| 0 <= j < i ==> cs@[j] != '/',
        decreases cs@.len() - i,
    {
        if cs[i] == '/' {
            return true;
        }
        i = i + 1;
    }
    false
}

/// Whether every media type name of `content` holds a `/`.
fn check_media_names(content: &Vec<(String, MediaType)>) -> (b: bool)
    ensures
        b == media_names_ok(content@),
{
    let mut i: usize = 0;
    while i < content.len()
        invariant
            i <= content@.len(),
            forall|j: int| 0 <= j < i ==> (#[trigger] content@[j]).0@.contains('/'),
        decreases content@.len() - i,
    {
        if !has_slash(content[i].0.as_str()) {
            assert(!(content@[i as int]).0@.contains('/'));
            return false;
        }
        i = i + 1;
    }
    true
}

/// Whether every response given in place in `m` names its media types with
/// a `/`.
fn check_responses(m: &Vec<(String, RefOr<ResponseObject>)>) -> (b: bool)
    ensures
        b == responses_ok(m@),
{
    let mut i: usize = 0;
    while i < m.len()
        invariant
            i <= m@.len(),
            forall|j: int|
                0 <= j < i ==> match (#[trigger] m@[j]).1 {
                    RefOr::Item(r) => media_names_ok(r.content@),
                    _ => true,
                },
        decreases m@.len() - i,
    {
        if let RefOr::Item(r) = &m[i].1 {
            if !check_media_names(&r.content) {
                return false;
            }
        }
        i = i + 1;
    }
    true
}

/// Whether every request body given in place in `m` names its media types
/// with a `/`.
fn check_bodies(m: &Vec<(String, RefOr<RequestBodyObject>)>) -> (b: bool)
    ensures
        b == bodies_ok(m@),
{
    let mut i: usize = 0;
    while i < m.len()
        invariant
            i <= m@.len(),
            forall|j: int|
                0 <= j < i ==> match (#[trigger] m@[j]).1 {
                    RefOr::Item(r) => media_names_ok(r.content@),
                    _ => true,
                },
        decreases m@.len() - i,
    {
        if let RefOr::Item(r) = &m[i].1 {
            if !check_media_names(&r.content) {
                return false;
            }
        }
        i = i + 1;
    }
    true
}

/// Whether `op` is `operation_ok`.
fn check_operation(op: &OperationObject) -> (b: bool)
    ensures
        b == operation_ok(*op),
{
    if let Some(RefOr::Item(body)) = &op.request_body {
        if !check_media_names(&body.content) {
            return false;
        }
    }
    if let Some(RefOr::Item(resp)) = &op.responses.default {
        if !check_media_names(&resp.content) {
            return false;
        }
    }
    check_responses_by_status(&op.responses.responses)
}

fn check_responses_by_status(m: &Vec<(ResponseStatus, RefOr<ResponseObject>)>) -> (b: bool)
    ensures
        b == forall|i: int|
            0 <= i < m@.len() ==> match (#[trigger] m@[i]).1 {
                RefOr::Item(r) => media_names_ok(r.content@),
                _ => true,
            },
{
    let mut i: usize = 0;
    while i < m.len()
        invariant
            i <= m@.len(),
            forall|j: int|
                0 <= j < i ==> match (#[trigger] m@[j]).1 {
                    RefOr::Item(r) => media_names_ok(r.content@),
                    _ => true,
                },
        decreases m@.len() - i,
    {
        if let RefOr::Item(r) = &m[i].1 {
            if !check_media_names(&r.content) {
                return false;
            }
        }
        i = i + 1;
    }
    true
}

/// Every operation of `ops` is `operation_ok`.
pub open spec fn ops_ok(ops: Seq<(&'static str, OperationObject)>) -> bool {
    forall|i: int| 0 <= i < ops.len() ==> operation_ok(#[trigger] ops[i].1)
}

proof fn lemma_ops_ok_concat(a: Seq<(&'static str, OperationObject)>, b: Seq<(&'static str, OperationObject)>)
    ensures
        ops_ok(a + b) <==> ops_ok(a) && ops_ok(b),
{
    if ops_ok(a + b) {
        assert forall|i: int| 0 <= i < a.len() implies operation_ok(#[trigger] a[i].1) by {
            assert((a + b)[i] == a[i]);
        }
        assert forall|i: int| 0 <= i < b.len() implies operation_ok(#[trigger] b[i].1) by {
            assert((a + b)[a.len() + i] == b[i]);
        }
    }
    if ops_ok(a) && ops_ok(b) {
        assert forall|i: int| 0 <= i < (a + b).len() implies operation_ok(#[trigger] (a + b)[i].1) by {
            if i < a.len() {
                assert((a + b)[i] == a[i]);
            } else {
                assert((a + b)[i] == b[i - a.len()]);
            }
        }
    }
}

/// Whether the operation, if present, is `operation_ok`.
fn check_present(method: &'static str, op: &Option<OperationObject>) -> (b: bool)
    ensures
        b == ops_ok(present(method, *op)),
{
    match op {
        Some(o) => {
            let r = check_operation(o);
            assert(present(method, *op)[0].1 == *o);
            r
        },
        None => true,
    }
}

/// Whether every operation of `pi` is `operation_ok`.
fn check_path_item(pi: &PathItemObject) -> (b: bool)
    ensures
        b == path_item_ok(*pi),
{
    let g = check_present("get", &pi.get);
    let p = check_present("put", &pi.put);
    let po = check_present("post", &pi.post);
    let d = check_present("delete", &pi.delete);
    let o = check_present("options", &pi.options);
    let h = check_present("head", &pi.head);
    let pa = check_present("patch", &pi.patch);
    let t = check_present("trace", &pi.trace);
    proof {
        let s1 = present("get", pi.get);
        let s2 = s1 + present("put", pi.put);
        let s3 = s2 + present("post", pi.post);
        let s4 = s3 + present("delete", pi.delete);
        let s5 = s4 + present("options", pi.options);
        let s6 = s5 + present("head", pi.head);
        let s7 = s6 + present("patch", pi.patch);
        let s8 = s7 + present("trace", pi.trace);
        lemma_ops_ok_concat(s1, present("put", pi.put));
        lemma_ops_ok_concat(s2, present("post", pi.post));
        lemma_ops_ok_concat(s3, present("delete", pi.delete));
        lemma_ops_ok_concat(s4, present("options", pi.options));
        lemma_ops_ok_concat(s5, present("head", pi.head));
        lemma_ops_ok_concat(s6, present("patch", pi.patch));
        lemma_ops_ok_concat(s7, present("trace", pi.trace));
        assert(s8 == operations(*pi));
        assert(path_item_ok(*pi) == ops_ok(s8));
    }
    g && p && po && d && o && h && pa && t
}

/// Whether every media type name that naming the schemas of `doc` reads
/// holds a `/`: whether `parse_schema` can take the document.
pub fn check_document(doc: &OpenApi) -> (b: bool)
    ensures
        b == document_ok(*doc),
{
    let comps = match &doc.components {
        Some(c) => check_responses(&c.responses) && check_bodies(&c.request_bodies),
        None => true,
    };
    if !comps {
        return false;
    }
    let mut i: usize = 0;
    while i < doc.paths.len()
        invariant
            i <= doc.paths@.len(),
            forall|j: int|
                0 <= j < i ==> match (#[trigger] doc.paths@[j]).1 {
                    RefOr::Item(pi) => path_item_ok(pi),
                    _ => true,
                },
        decreases doc.paths@.len() - i,
    {
        if let RefOr::Item(pi) = &doc.paths[i].1 {
            if !check_path_item(pi) {
                return false;
            }
        }
        i = i + 1;
    }
    true
}

} // verus!
