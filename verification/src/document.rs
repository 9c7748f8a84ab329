//! Reading a schema document: the text parsed as JSON or YAML into an
//! `openapiv3::OpenAPI`, and taken over into the library's model, one value
//! for one.
use vstd::prelude::*;
use crate::model::{
    ExtraProperties, ArrayType, Components, IntegerFormat, MediaType, NumberFormat,
    ObjectForm, OpenApi, OperationObject, PathItemObject, RefOr, RequestBodyObject, ResponseObject, Responses, SchemaObject,
    SchemaForm, ResponseStatus, StringType, TypeForm,
};

verus! {

/// The document that `serde_json::from_str` reads from a text, as an
/// `openapiv3::OpenAPI` taken over into the library's model; `None` where
/// it reports an error.
pub uninterp spec fn json_document(text: Seq<char>) -> Option<OpenApi>;

/// The document that `serde_yaml::from_str` reads from a text, as an
/// `openapiv3::OpenAPI` taken over into the library's model; `None` where
/// it reports an error.
pub uninterp spec fn yaml_document(text: Seq<char>) -> Option<OpenApi>;

/// `serde_json::from_str` into `openapiv3::OpenAPI`, the result taken over
/// into the library's model: the document named `json_document`, or the
/// error where there is none. What the parse gives is a function of the
/// text alone; which text gives which document is left unsaid.
#[verifier::external_body]
pub(crate) fn parse_json(text: &str) -> (r: Result<OpenApi, serde_json::Error>)
    ensures
        (r is Ok) == (json_document(text@) is Some),
        r is Ok ==> json_document(text@) == Some(r->Ok_0),
{
    match serde_json::from_str::<openapiv3::OpenAPI>(text) {
        Ok(d) => Ok(document_from(d)),
        Err(e) => Err(e),
    }
}

/// `serde_yaml::from_str` into `openapiv3::OpenAPI`, the result taken over
/// into the library's model: the document named `yaml_document`, or the
/// error where there is none. What the parse gives is a function of the
/// text alone; which text gives which document is left unsaid.
#[verifier::external_body]
pub(crate) fn parse_yaml(text: &str) -> (r: Result<OpenApi, serde_yaml::Error>)
    ensures
        (r is Ok) == (yaml_document(text@) is Some),
        r is Ok ==> yaml_document(text@) == Some(r->Ok_0),
{
    match serde_yaml::from_str::<openapiv3::OpenAPI>(text) {
        Ok(d) => Ok(document_from(d)),
        Err(e) => Err(e),
    }
}

// What follows takes an `openapiv3` value over into the library's model,
// field for field and variant for variant; it is part of `parse_json` and
// `parse_yaml`, and states nothing of its own.

#[verifier::external_body]
fn ref_or<T, U, F: FnOnce(T) -> U>(r: openapiv3::ReferenceOr<T>, f: F) -> RefOr<U> {
    match r {
        openapiv3::ReferenceOr::Reference { reference } => RefOr::Reference(reference),
        openapiv3::ReferenceOr::Item(t) => RefOr::Item(f(t)),
    }
}

#[verifier::external_body]
fn slot_from(r: openapiv3::ReferenceOr<openapiv3::Schema>) -> RefOr<SchemaObject> {
    ref_or(r, schema_from)
}

#[verifier::external_body]
fn boxed_slot_from(r: openapiv3::ReferenceOr<Box<openapiv3::Schema>>) -> RefOr<SchemaObject> {
    ref_or(r, |b: Box<openapiv3::Schema>| schema_from(*b))
}

#[verifier::external_body]
fn schema_from(s: openapiv3::Schema) -> SchemaObject {
    SchemaObject {
        title: s.schema_data.title,
        description: s.schema_data.description,
        nullable: s.schema_data.nullable,
        kind: kind_from(s.schema_kind),
    }
}

#[verifier::external_body]
fn kind_from(k: openapiv3::SchemaKind) -> SchemaForm {
    match k {
        openapiv3::SchemaKind::Type(t) => SchemaForm::TypeForm(type_from(t)),
        openapiv3::SchemaKind::OneOf { one_of } => SchemaForm::OneOf(one_of.into_iter().map(slot_from).collect()),
        openapiv3::SchemaKind::AllOf { all_of } => SchemaForm::AllOf(all_of.into_iter().map(slot_from).collect()),
        openapiv3::SchemaKind::AnyOf { any_of } => SchemaForm::AnyOf(any_of.into_iter().map(slot_from).collect()),
        openapiv3::SchemaKind::Not { .. } => SchemaForm::Not,
        openapiv3::SchemaKind::Any(_) => SchemaForm::Any,
    }
}

#[verifier::external_body]
fn type_from(t: openapiv3::Type) -> TypeForm {
    match t {
        openapiv3::Type::String(s) => TypeForm::String(StringType { enumeration: s.enumeration }),
        openapiv3::Type::Number(n) => TypeForm::Number(number_from(n)),
        openapiv3::Type::Integer(i) => TypeForm::Integer(integer_from(i)),
        openapiv3::Type::Object(o) => TypeForm::Object(object_from(o)),
        openapiv3::Type::Array(a) => TypeForm::Array(ArrayType { items: a.items.map(|i| Box::new(boxed_slot_from(i))) }),
        openapiv3::Type::Boolean {} => TypeForm::Boolean,
    }
}

#[verifier::external_body]
fn number_from(n: openapiv3::NumberType) -> NumberFormat {
    match n.format {
        openapiv3::VariantOrUnknownOrEmpty::Item(openapiv3::NumberFormat::Float) => NumberFormat::Float,
        openapiv3::VariantOrUnknownOrEmpty::Item(openapiv3::NumberFormat::Double) => NumberFormat::Double,
        openapiv3::VariantOrUnknownOrEmpty::Unknown(_) => NumberFormat::Unspecified,
        openapiv3::VariantOrUnknownOrEmpty::Empty => NumberFormat::Unspecified,
    }
}

#[verifier::external_body]
fn integer_from(i: openapiv3::IntegerType) -> IntegerFormat {
    match i.format {
        openapiv3::VariantOrUnknownOrEmpty::Item(openapiv3::IntegerFormat::Int32) => IntegerFormat::Int32,
        openapiv3::VariantOrUnknownOrEmpty::Item(openapiv3::IntegerFormat::Int64) => IntegerFormat::Int64,
        openapiv3::VariantOrUnknownOrEmpty::Unknown(_) => IntegerFormat::Unspecified,
        openapiv3::VariantOrUnknownOrEmpty::Empty => IntegerFormat::Unspecified,
    }
}

#[verifier::external_body]
fn object_from(o: openapiv3::ObjectType) -> ObjectForm {
    ObjectForm {
        properties: o.properties.into_iter().map(|(k, v)| (k, boxed_slot_from(v))).collect(),
        required: o.required,
        additional_properties: o.additional_properties.map(additional_from),
    }
}

#[verifier::external_body]
fn additional_from(a: openapiv3::AdditionalProperties) -> ExtraProperties {
    match a {
        openapiv3::AdditionalProperties::Any(b) => ExtraProperties::Any(b),
        openapiv3::AdditionalProperties::Schema(s) => ExtraProperties::SchemaObject(Box::new(slot_from(*s))),
    }
}

#[verifier::external_body]
fn response_from(r: openapiv3::Response) -> ResponseObject {
    ResponseObject {
        content: r.content.into_iter().map(|(k, m)| (k, MediaType { schema: m.schema.map(slot_from) })).collect(),
    }
}

#[verifier::external_body]
fn body_from(b: openapiv3::RequestBody) -> RequestBodyObject {
    RequestBodyObject {
        content: b.content.into_iter().map(|(k, m)| (k, MediaType { schema: m.schema.map(slot_from) })).collect(),
    }
}

#[verifier::external_body]
fn status_from(s: openapiv3::StatusCode) -> ResponseStatus {
    match s {
        openapiv3::StatusCode::Code(n) => ResponseStatus::Code(n),
        openapiv3::StatusCode::Range(n) => ResponseStatus::Range(n),
    }
}

#[verifier::external_body]
fn operation_from(o: openapiv3::Operation) -> OperationObject {
    OperationObject {
        request_body: o.request_body.map(|b| ref_or(b, body_from)),
        responses: Responses {
            default: o.responses.default.map(|r| ref_or(r, response_from)),
            responses: o.responses.responses.into_iter().map(|(s, r)| (status_from(s), ref_or(r, response_from))).collect(),
        },
    }
}

#[verifier::external_body]
fn path_item_from(p: openapiv3::PathItem) -> PathItemObject {
    PathItemObject {
        get: p.get.map(operation_from),
        put: p.put.map(operation_from),
        post: p.post.map(operation_from),
        delete: p.delete.map(operation_from),
        options: p.options.map(operation_from),
        head: p.head.map(operation_from),
        patch: p.patch.map(operation_from),
        trace: p.trace.map(operation_from),
    }
}

#[verifier::external_body]
fn document_from(o: openapiv3::OpenAPI) -> OpenApi {
    OpenApi {
        components: o.components.map(|c| Components {
            schemas: c.schemas.into_iter().map(|(k, v)| (k, slot_from(v))).collect(),
            responses: c.responses.into_iter().map(|(k, v)| (k, ref_or(v, response_from))).collect(),
            request_bodies: c.request_bodies.into_iter().map(|(k, v)| (k, ref_or(v, body_from))).collect(),
        }),
        paths: o.paths.paths.into_iter().map(|(k, v)| (k, ref_or(v, path_item_from))).collect(),
    }
}

} // verus!
