use openapi_struct_gen::error::GenError;
use openapi_struct_gen::run::generate_from_text;

const PET_JSON: &str = r#"{
  "openapi": "3.0.0",
  "info": { "title": "pets", "version": "1" },
  "paths": {},
  "components": {
    "schemas": {
      "Pet": {
        "type": "object",
        "required": ["name"],
        "properties": {
          "name": { "type": "string" },
          "tag": { "type": "string" },
          "owner": { "type": "object", "properties": { "id": { "type": "integer", "format": "int64" } } }
        }
      }
    }
  }
}"#;

const PET_YAML: &str = "openapi: 3.0.0
info:
  title: pets
  version: '1'
paths: {}
components:
  schemas:
    Pet:
      type: object
      required: [name]
      properties:
        name:
          type: string
        tag:
          type: string
";

fn run(text: &str, extension: Option<&str>) -> Result<Option<String>, GenError> {
    generate_from_text(text, extension, None, None, None, None, None, false)
}

#[test]
fn json_text_is_generated() {
    let out = run(PET_JSON, Some("json")).unwrap().unwrap();
    assert!(out.contains("pub struct Pet {"));
    assert!(out.contains("pub name: String,"));
    assert!(out.contains("pub tag: Option<String>,"));
    assert!(out.contains("pub owner: Option<PetOwner>,"));
    assert!(out.contains("pub struct PetOwner {"));
    assert!(out.contains("pub id: Option<i64>,"));
}

#[test]
fn yaml_text_is_generated() {
    for ext in ["yaml", "yml"] {
        let out = run(PET_YAML, Some(ext)).unwrap().unwrap();
        assert!(out.contains("pub struct Pet {"));
        assert!(out.contains("pub name: String,"));
        assert!(out.contains("pub tag: Option<String>,"));
    }
}

#[test]
fn run_rejects_an_unknown_extension() {
    match run(PET_JSON, Some("txt")) {
        Err(GenError::WrongFileExtension(Some(e))) => assert_eq!(e, "txt"),
        _ => panic!("expected the extension error"),
    }
    assert!(matches!(run(PET_JSON, None), Err(GenError::WrongFileExtension(None))));
}

#[test]
fn run_reports_parse_errors() {
    assert!(matches!(run("{ not json", Some("json")), Err(GenError::Json(_))));
    assert!(matches!(run(PET_YAML, Some("json")), Err(GenError::Json(_))));
    assert!(matches!(run("openapi: [", Some("yaml")), Err(GenError::Yaml(_))));
}

#[test]
fn run_gives_none_for_an_array_without_items() {
    let text = r#"{"openapi":"3.0.0","info":{"title":"t","version":"1"},"paths":{},
        "components":{"schemas":{"List":{"type":"array"}}}}"#;
    assert!(matches!(run(text, Some("json")), Ok(None)));
}
