use openapi_struct_gen::error::{schema_format, GenError, SchemaFormat};
use openapi_struct_gen::generate::field_doc_lines;
use openapi_struct_gen::model::ResponseStatus;
use openapi_struct_gen::parse::{generate_request_body_name, generate_response_name};
use openapi_struct_gen::types::{check_reference, handle_reference, sanitize_name};

#[test]
fn sanitize_replaces_non_alphanumerics() {
    assert_eq!(sanitize_name("foo-bar"), "foo_bar");
    assert_eq!(sanitize_name("a.b c"), "a_b_c");
    assert_eq!(sanitize_name("Pet"), "Pet");
    assert_eq!(sanitize_name("Ünïcödé"), "Ünïcödé");
}

#[test]
fn sanitize_prefixes_leading_digit() {
    assert_eq!(sanitize_name("1abc"), "_1abc");
    assert_eq!(sanitize_name("404-error"), "_404_error");
    assert_eq!(sanitize_name(""), "");
    assert_eq!(sanitize_name("-1"), "_1");
}

#[test]
fn sanitize_is_idempotent() {
    for s in ["foo-bar", "1abc", "x y", "", "__", "9"] {
        let once = sanitize_name(s);
        assert_eq!(sanitize_name(&once), once);
    }
}

#[test]
fn sanitize_keeps_ascii_identifiers() {
    for s in ["Pet", "pet_name", "_private", "Pet2Owner", "a", "ABC_123"] {
        assert_eq!(sanitize_name(s), s);
    }
}

#[test]
fn handle_reference_takes_last_piece() {
    assert_eq!(handle_reference("#/components/schemas/Pet".to_string()), "Pet");
    assert_eq!(handle_reference("#/components/schemas/my-pet".to_string()), "my_pet");
    assert_eq!(handle_reference("#/components/schemas/1st".to_string()), "_1st");
}

#[test]
fn check_reference_accepts_component_schemas_only() {
    assert!(check_reference("#/components/schemas/Pet"));
    assert!(!check_reference("#/components/responses/Pet"));
    assert!(!check_reference("other.yaml#/components/schemas/Pet"));
    assert!(!check_reference("#/components"));
}

#[test]
fn field_doc_lines_with_description() {
    let lines = field_doc_lines(Some("line one\nline two"), "string");
    assert_eq!(lines, vec!["line one", "line two", "", "Type: `string`"]);
}

#[test]
fn field_doc_lines_without_description() {
    assert_eq!(field_doc_lines(None, "integer"), vec!["Type: `integer`"]);
}

#[test]
fn field_doc_lines_crlf_and_trailing_newline() {
    let lines = field_doc_lines(Some("a\r\nb\n"), "object");
    assert_eq!(lines, vec!["a", "b", "", "Type: `object`"]);
}

#[test]
fn request_body_names() {
    assert_eq!(
        generate_request_body_name("pets".to_string(), Some("post"), "application/json".to_string()),
        "PetsPostJsonRequestBody"
    );
    assert_eq!(
        generate_request_body_name("NewPet".to_string(), None, "application/x-www-form-urlencoded".to_string()),
        "NewPetXWwwFormUrlencodedRequestBody"
    );
}

#[test]
fn response_names() {
    assert_eq!(
        generate_response_name("/pets".to_string(), Some("get"), Some(ResponseStatus::Code(200)), false, "application/json".to_string()),
        "PetsGet200JsonResponse"
    );
    assert_eq!(
        generate_response_name("/pets".to_string(), Some("get"), Some(ResponseStatus::Range(4)), false, "text/plain".to_string()),
        "PetsGet4XXPlainResponse"
    );
    assert_eq!(
        generate_response_name("/pets".to_string(), Some("delete"), None, true, "application/json".to_string()),
        "PetsDeleteJsonResponseDefault"
    );
    assert_eq!(
        generate_response_name("NotFound".to_string(), None, None, false, "application/json".to_string()),
        "NotFoundJsonResponse"
    );
}

#[test]
fn schema_format_by_extension() {
    assert!(matches!(schema_format(Some("json")), Ok(SchemaFormat::Json)));
    assert!(matches!(schema_format(Some("yaml")), Ok(SchemaFormat::Yaml)));
    assert!(matches!(schema_format(Some("yml")), Ok(SchemaFormat::Yaml)));
}

#[test]
fn schema_format_wrong_extension() {
    match schema_format(Some("txt")) {
        Err(GenError::WrongFileExtension(Some(e))) => assert_eq!(e, "txt"),
        _ => panic!("expected a wrong extension"),
    }
    assert!(matches!(schema_format(None), Err(GenError::WrongFileExtension(None))));
    assert!(matches!(schema_format(Some("JSON")), Err(GenError::WrongFileExtension(Some(_)))));
}
