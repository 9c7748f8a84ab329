//! The outside types that a schema document passes through while it is read:
//! the parsers' errors and the `openapiv3` types that the document is taken
//! over from.
use vstd::prelude::*;

verus! {

#[verifier::external_type_specification]
#[verifier::external_body]
pub struct ExJsonError(serde_json::Error);

#[verifier::external_type_specification]
#[verifier::external_body]
pub struct ExYamlError(serde_yaml::Error);

#[verifier::external_type_specification]
#[verifier::external_body]
pub struct ExOpenApiDocument(openapiv3::OpenAPI);

#[verifier::external_type_specification]
#[verifier::external_body]
#[verifier::reject_recursive_types(T)]
pub struct ExReferenceOr<T>(openapiv3::ReferenceOr<T>);

#[verifier::external_type_specification]
#[verifier::external_body]
pub struct ExOaSchema(openapiv3::Schema);

#[verifier::external_type_specification]
#[verifier::external_body]
pub struct ExOaSchemaKind(openapiv3::SchemaKind);

#[verifier::external_type_specification]
#[verifier::external_body]
pub struct ExOaType(openapiv3::Type);

#[verifier::external_type_specification]
#[verifier::external_body]
pub struct ExOaNumberType(openapiv3::NumberType);

#[verifier::external_type_specification]
#[verifier::external_body]
pub struct ExOaIntegerType(openapiv3::IntegerType);

#[verifier::external_type_specification]
#[verifier::external_body]
pub struct ExOaObjectType(openapiv3::ObjectType);

#[verifier::external_type_specification]
#[verifier::external_body]
pub struct ExOaAdditionalProperties(openapiv3::AdditionalProperties);

#[verifier::external_type_specification]
#[verifier::external_body]
pub struct ExOaResponse(openapiv3::Response);

#[verifier::external_type_specification]
#[verifier::external_body]
pub struct ExOaRequestBody(openapiv3::RequestBody);

#[verifier::external_type_specification]
#[verifier::external_body]
pub struct ExOaOperation(openapiv3::Operation);

#[verifier::external_type_specification]
#[verifier::external_body]
pub struct ExOaPathItem(openapiv3::PathItem);

#[verifier::external_type_specification]
#[verifier::external_body]
pub struct ExOaStatusCode(openapiv3::StatusCode);

} // verus!
