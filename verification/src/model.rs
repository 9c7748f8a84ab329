//! The parts of an OpenAPI 3.0 document that the generator reads.
//!
//! Maps of the document are kept as vectors of named entries, in the order
//! in which the document lists them.
use vstd::prelude::*;

verus! {

/// A value given in place, or a `$ref` to one given elsewhere.
pub enum RefOr<T> {
    Reference(String),
    Item(T),
}

/// The `format` of a `number` schema.
pub enum NumberFormat {
    Float,
    Double,
    /// Absent, or a format other than the two above.
    Unspecified,
}

/// The `format` of an `integer` schema.
pub enum IntegerFormat {
    Int32,
    Int64,
    /// Absent, or a format other than the two above.
    Unspecified,
}

/// The `additionalProperties` of an object schema.
pub enum ExtraProperties {
    Any(bool),
    SchemaObject(Box<RefOr<SchemaObject>>),
}

pub struct ObjectForm {
    /// The properties, in the order in which the document lists them.
    pub properties: Vec<(String, RefOr<SchemaObject>)>,
    pub required: Vec<String>,
    pub additional_properties: Option<ExtraProperties>,
}

pub struct ArrayType {
    pub items: Option<Box<RefOr<SchemaObject>>>,
}

pub struct StringType {
    /// The values of `enum`; `None` stands for a `null` value.
    pub enumeration: Vec<Option<String>>,
}

/// The `type` of a schema.
pub enum TypeForm {
    String(StringType),
    Number(NumberFormat),
    Integer(IntegerFormat),
    Object(ObjectForm),
    Array(ArrayType),
    Boolean,
}

/// What kind of schema a schema is.
pub enum SchemaForm {
    TypeForm(TypeForm),
    OneOf(Vec<RefOr<SchemaObject>>),
    AllOf(Vec<RefOr<SchemaObject>>),
    AnyOf(Vec<RefOr<SchemaObject>>),
    /// A `not` schema (its content is never read).
    Not,
    /// Any other combination of schema keywords (its content is never read).
    Any,
}

pub struct SchemaObject {
    pub title: Option<String>,
    pub description: Option<String>,
    pub nullable: bool,
    pub kind: SchemaForm,
}

pub struct MediaType {
    pub schema: Option<RefOr<SchemaObject>>,
}

pub struct ResponseObject {
    /// Media type name (such as `application/json`) to media type.
    pub content: Vec<(String, MediaType)>,
}

pub struct RequestBodyObject {
    /// Media type name (such as `application/json`) to media type.
    pub content: Vec<(String, MediaType)>,
}

/// A response status code: a single code, or a range such as `2XX`.
#[derive(Clone, Copy)]
pub enum ResponseStatus {
    Code(u16),
    Range(u16),
}

pub struct Responses {
    pub default: Option<RefOr<ResponseObject>>,
    pub responses: Vec<(ResponseStatus, RefOr<ResponseObject>)>,
}

pub struct OperationObject {
    pub request_body: Option<RefOr<RequestBodyObject>>,
    pub responses: Responses,
}

/// The operations of one path.
pub struct PathItemObject {
    pub get: Option<OperationObject>,
    pub put: Option<OperationObject>,
    pub post: Option<OperationObject>,
    pub delete: Option<OperationObject>,
    pub options: Option<OperationObject>,
    pub head: Option<OperationObject>,
    pub patch: Option<OperationObject>,
    pub trace: Option<OperationObject>,
}

pub struct Components {
    pub schemas: Vec<(String, RefOr<SchemaObject>)>,
    pub responses: Vec<(String, RefOr<ResponseObject>)>,
    pub request_bodies: Vec<(String, RefOr<RequestBodyObject>)>,
}

/// An OpenAPI document.
pub struct OpenApi {
    pub components: Option<Components>,
    /// Path to path item, in the order in which the document lists them.
    pub paths: Vec<(String, RefOr<PathItemObject>)>,
}

/// Two slots hold the same schema (vectors compared by their contents).
pub open spec fn same_slot(a: RefOr<SchemaObject>, b: RefOr<SchemaObject>) -> bool
    decreases a,
{
    match a {
        RefOr::Reference(x) => b == RefOr::<SchemaObject>::Reference(x),
        RefOr::Item(s) => match b {
            RefOr::Item(t) => same_schema(s, t),
            _ => false,
        },
    }
}

/// Two schemas are the same (vectors compared by their contents).
pub open spec fn same_schema(s: SchemaObject, t: SchemaObject) -> bool
    decreases s,
{
    s.title == t.title && s.description == t.description && s.nullable == t.nullable && same_kind(
        s.kind,
        t.kind,
    )
}

/// Two schema kinds are the same (vectors compared by their contents).
pub open spec fn same_kind(a: SchemaForm, b: SchemaForm) -> bool
    decreases a,
{
    match a {
        SchemaForm::TypeForm(x) => match b {
            SchemaForm::TypeForm(y) => same_type(x, y),
            _ => false,
        },
        SchemaForm::AllOf(x) => match b {
            SchemaForm::AllOf(y) => same_members(x@, y@),
            _ => false,
        },
        SchemaForm::AnyOf(x) => match b {
            SchemaForm::AnyOf(y) => same_members(x@, y@),
            _ => false,
        },
        SchemaForm::OneOf(x) => match b {
            SchemaForm::OneOf(y) => same_members(x@, y@),
            _ => false,
        },
        SchemaForm::Not => b is Not,
        SchemaForm::Any => b is Any,
    }
}

/// Two types are the same (vectors compared by their contents).
pub open spec fn same_type(x: TypeForm, y: TypeForm) -> bool
    decreases x,
{
    match x {
        TypeForm::Object(o) => match y {
            TypeForm::Object(p) => same_props(o.properties@, p.properties@) && o.required
                == p.required && o.additional_properties == p.additional_properties,
            _ => false,
        },
        TypeForm::Array(a) => match y {
            TypeForm::Array(c) => match a.items {
                Some(p) => match c.items {
                    Some(q) => same_slot(*p, *q),
                    None => false,
                },
                None => c.items is None,
            },
            _ => false,
        },
        _ => x == y,
    }
}

/// Two property lists are the same (vectors compared by their contents).
pub open spec fn same_props(a: Seq<(String, RefOr<SchemaObject>)>, b: Seq<(String, RefOr<SchemaObject>)>) -> bool
    decreases a,
{
    if a.len() == 0 {
        b.len() == 0
    } else {
        b.len() == a.len() && same_props(a.drop_last(), b.drop_last()) && a.last().0 == b.last().0
            && same_slot(a.last().1, b.last().1)
    }
}

/// Two member lists are the same (vectors compared by their contents).
pub open spec fn same_members(a: Seq<RefOr<SchemaObject>>, b: Seq<RefOr<SchemaObject>>) -> bool
    decreases a,
{
    if a.len() == 0 {
        b.len() == 0
    } else {
        b.len() == a.len() && same_members(a.drop_last(), b.drop_last()) && same_slot(
            a.last(),
            b.last(),
        )
    }
}

} // verus!
