use openapi_struct_gen::generate::{can_generate, generate};
use openapi_struct_gen::model::{
    Components, IntegerFormat, MediaType, ObjectForm, OpenApi, OperationObject, PathItemObject, RefOr, ResponseObject, Responses,
    SchemaObject, SchemaForm, ResponseStatus, StringType, TypeForm,
};
use openapi_struct_gen::normalize::normalize_if_fits;
use openapi_struct_gen::parse::{check_document, parse_schema};

fn schema(kind: SchemaForm) -> SchemaObject {
    SchemaObject { title: None, description: None, nullable: false, kind }
}

fn object(props: Vec<(&str, RefOr<SchemaObject>)>, required: Vec<&str>) -> SchemaObject {
    schema(SchemaForm::TypeForm(TypeForm::Object(ObjectForm {
        properties: props.into_iter().map(|(k, v)| (k.to_string(), v)).collect(),
        required: required.into_iter().map(|r| r.to_string()).collect(),
        additional_properties: None,
    })))
}

fn string_schema() -> SchemaObject {
    schema(SchemaForm::TypeForm(TypeForm::String(StringType { enumeration: vec![] })))
}

fn integer_schema() -> SchemaObject {
    schema(SchemaForm::TypeForm(TypeForm::Integer(IntegerFormat::Int64)))
}

fn empty_path_item() -> PathItemObject {
    PathItemObject { get: None, put: None, post: None, delete: None, options: None, head: None, patch: None, trace: None }
}

/// A small search API: a request with a required query and an optional
/// page size, and a response with its results inline.
fn example_document() -> OpenApi {
    let search_request = object(
        vec![("query", RefOr::Item(string_schema())), ("pageSize", RefOr::Item(integer_schema()))],
        vec!["query"],
    );
    let hit = object(
        vec![("id", RefOr::Item(integer_schema())), ("title", RefOr::Item(string_schema()))],
        vec!["id"],
    );
    let response = ResponseObject {
        content: vec![(
            "application/json".to_string(),
            MediaType {
                schema: Some(RefOr::Item(object(
                    vec![(
                        "hits",
                        RefOr::Item(schema(SchemaForm::TypeForm(TypeForm::Array(
                            openapi_struct_gen::model::ArrayType {
                                items: Some(Box::new(RefOr::Reference("#/components/schemas/Hit".to_string()))),
                            },
                        )))),
                    )],
                    vec!["hits"],
                ))),
            },
        )],
    };
    let mut item = empty_path_item();
    item.post = Some(OperationObject {
        request_body: None,
        responses: Responses { default: None, responses: vec![(ResponseStatus::Code(200), RefOr::Item(response))] },
    });
    OpenApi {
        components: Some(Components {
            schemas: vec![
                ("SearchRequest".to_string(), RefOr::Item(search_request)),
                ("Hit".to_string(), RefOr::Item(hit)),
            ],
            responses: vec![],
            request_bodies: vec![],
        }),
        paths: vec![("/search".to_string(), RefOr::Item(item))],
    }
}

#[test]
fn test_generate() {
    let doc = example_document();
    assert!(check_document(&doc));
    let (mut schemas, _aliases) = parse_schema(doc);
    assert!(normalize_if_fits(&mut schemas));
    assert!(can_generate(&schemas));
    let generated = generate(
        schemas,
        Some(&["Clone", "Serialize", "Deserialize"]),
        Some(&[("serde", "Serialize"), ("serde", "Deserialize")]),
        Some(&[(r#"#[skip_serializing_none]"#, None)]),
        Some(&[(r#"#[serde(rename_all = "camelCase")]"#, Some(&["SearchRequest"]))]),
        Some(&[("integer", r#"#[serde_as(as = "DisplayFromStr")]"#, r#"#[serde_as(as = "Option<DisplayFromStr>")]"#)]),
        true,
    );
    assert!(generated.contains(r#"#[serde(skip_serializing_if = "Option::is_none")]"#));
}

#[test]
fn test_generate_example_output() {
    let doc = example_document();
    let (mut schemas, _aliases) = parse_schema(doc);
    assert!(normalize_if_fits(&mut schemas));
    let generated = generate(
        schemas,
        Some(&["Clone", "Serialize", "Deserialize"]),
        Some(&[("serde", "Serialize"), ("serde", "Deserialize")]),
        Some(&[(r#"#[skip_serializing_none]"#, None)]),
        Some(&[(r#"#[serde(rename_all = "camelCase")]"#, Some(&["SearchRequest"]))]),
        Some(&[("integer", r#"#[serde_as(as = "DisplayFromStr")]"#, r#"#[serde_as(as = "Option<DisplayFromStr>")]"#)]),
        true,
    );
    assert!(generated.starts_with("use serde::{Serialize, Deserialize};\n"));
    assert!(generated.contains("#[derive(Debug, Clone, Serialize, Deserialize)]"));
    assert!(generated.contains("pub struct SearchRequest {"));
    assert!(generated.contains("pub struct Hit {"));
    assert!(generated.contains("pub struct SearchPost200JsonResponse {"));
    assert!(generated.contains("pub query: String,"));
    assert!(generated.contains("pub page_size: Option<i64>,"));
    assert!(generated.contains(r#"#[serde(rename = "pageSize")]"#));
    assert!(generated.contains(r#"#[serde_as(as = "Option<DisplayFromStr>")]"#));
    assert!(generated.contains(r#"#[serde_as(as = "DisplayFromStr")]"#));
    assert!(generated.contains("pub hits: Vec<Hit>,"));
    // the camelCase rename is excepted for SearchRequest only
    assert_eq!(generated.matches(r#"#[serde(rename_all = "camelCase")]"#).count(), 2);
    assert_eq!(generated.matches("#[skip_serializing_none]").count(), 3);
}

#[test]
fn test_generate_without_skip_none() {
    let doc = example_document();
    let (mut schemas, _aliases) = parse_schema(doc);
    assert!(normalize_if_fits(&mut schemas));
    let generated = generate(schemas, None, None, None, None, None, false);
    assert!(!generated.contains("skip_serializing_if"));
    assert!(generated.contains("pub page_size: Option<i64>,"));
}
