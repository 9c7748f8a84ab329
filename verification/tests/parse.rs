use openapi_struct_gen::model::{
    Components, MediaType, OpenApi, OperationObject, PathItemObject, RefOr, RequestBodyObject, ResponseObject, Responses, SchemaObject, SchemaForm,
    ResponseStatus, TypeForm,
};
use openapi_struct_gen::parse::{check_document, parse_schema};

fn boolean() -> SchemaObject {
    SchemaObject { title: None, description: None, nullable: false, kind: SchemaForm::TypeForm(TypeForm::Boolean) }
}

fn json(schema: Option<RefOr<SchemaObject>>) -> Vec<(String, MediaType)> {
    vec![("application/json".to_string(), MediaType { schema })]
}

fn empty_path_item() -> PathItemObject {
    PathItemObject { get: None, put: None, post: None, delete: None, options: None, head: None, patch: None, trace: None }
}

fn keys(doc: OpenApi) -> (Vec<String>, Vec<String>) {
    let (schemas, aliases) = parse_schema(doc);
    (schemas.keys(), aliases.keys())
}

#[test]
fn component_schemas_and_aliases() {
    let doc = OpenApi {
        components: Some(Components {
            schemas: vec![
                ("Pet".to_string(), RefOr::Item(boolean())),
                ("Animal".to_string(), RefOr::Reference("#/components/schemas/Pet".to_string())),
            ],
            responses: vec![],
            request_bodies: vec![],
        }),
        paths: vec![],
    };
    let (schemas, aliases) = parse_schema(doc);
    assert_eq!(schemas.keys(), vec!["Pet"]);
    assert_eq!(aliases.keys(), vec!["Animal"]);
    assert_eq!(aliases.get("Animal").unwrap(), "Pet");
}

#[test]
fn component_responses_and_bodies_are_named() {
    let doc = OpenApi {
        components: Some(Components {
            schemas: vec![],
            responses: vec![
                ("not-found".to_string(), RefOr::Item(ResponseObject { content: json(Some(RefOr::Item(boolean()))) })),
                ("Elsewhere".to_string(), RefOr::Reference("#/components/responses/X".to_string())),
            ],
            request_bodies: vec![
                ("NewPet".to_string(), RefOr::Item(RequestBodyObject { content: json(Some(RefOr::Item(boolean()))) })),
                ("Refd".to_string(), RefOr::Item(RequestBodyObject { content: json(Some(RefOr::Reference("#/x".to_string()))) })),
            ],
        }),
        paths: vec![],
    };
    let (schemas, aliases) = keys(doc);
    assert_eq!(schemas, vec!["NewPetJsonRequestBody", "NotFoundJsonResponse"]);
    assert!(aliases.is_empty());
}

#[test]
fn operations_are_named_by_path_method_and_status() {
    let mut item = empty_path_item();
    item.get = Some(OperationObject {
        request_body: None,
        responses: Responses {
            default: Some(RefOr::Item(ResponseObject { content: json(Some(RefOr::Item(boolean()))) })),
            responses: vec![
                (ResponseStatus::Code(200), RefOr::Item(ResponseObject { content: json(Some(RefOr::Item(boolean()))) })),
                (ResponseStatus::Range(5), RefOr::Item(ResponseObject { content: json(None) })),
            ],
        },
    });
    item.put = Some(OperationObject {
        request_body: Some(RefOr::Item(RequestBodyObject { content: json(Some(RefOr::Item(boolean()))) })),
        responses: Responses { default: None, responses: vec![] },
    });
    let doc = OpenApi { components: None, paths: vec![("/pets/{id}".to_string(), RefOr::Item(item))] };
    let (schemas, _) = keys(doc);
    assert_eq!(schemas, vec!["PetsIdGet200JsonResponse", "PetsIdGetJsonResponseDefault", "PetsIdPutJsonRequestBody"]);
}

#[test]
fn later_schema_of_the_same_name_wins() {
    let mut item = empty_path_item();
    item.post = Some(OperationObject {
        request_body: Some(RefOr::Item(RequestBodyObject {
            content: json(Some(RefOr::Item(SchemaObject {
                title: Some("later".to_string()),
                description: None,
                nullable: false,
                kind: SchemaForm::TypeForm(TypeForm::Boolean),
            }))),
        })),
        responses: Responses { default: None, responses: vec![] },
    });
    let doc = OpenApi {
        components: Some(Components {
            schemas: vec![("PetsPostJsonRequestBody".to_string(), RefOr::Item(boolean()))],
            responses: vec![],
            request_bodies: vec![],
        }),
        paths: vec![("/pets".to_string(), RefOr::Item(item))],
    };
    let (schemas, _) = parse_schema(doc);
    assert_eq!(schemas.keys(), vec!["PetsPostJsonRequestBody"]);
    assert_eq!(schemas.get("PetsPostJsonRequestBody").unwrap().title, Some("later".to_string()));
}

#[test]
fn check_document_needs_slashed_media_types() {
    let good = OpenApi {
        components: Some(Components {
            schemas: vec![],
            responses: vec![("R".to_string(), RefOr::Item(ResponseObject { content: json(None) }))],
            request_bodies: vec![],
        }),
        paths: vec![],
    };
    assert!(check_document(&good));
    let bad = OpenApi {
        components: Some(Components {
            schemas: vec![],
            responses: vec![(
                "R".to_string(),
                RefOr::Item(ResponseObject { content: vec![("json".to_string(), MediaType { schema: None })] }),
            )],
            request_bodies: vec![],
        }),
        paths: vec![],
    };
    assert!(!check_document(&bad));
    let mut item = empty_path_item();
    item.trace = Some(OperationObject {
        request_body: Some(RefOr::Item(RequestBodyObject { content: vec![("plain".to_string(), MediaType { schema: None })] })),
        responses: Responses { default: None, responses: vec![] },
    });
    let bad_path = OpenApi { components: None, paths: vec![("/x".to_string(), RefOr::Item(item))] };
    assert!(!check_document(&bad_path));
}
