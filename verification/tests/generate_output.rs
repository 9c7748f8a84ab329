use openapi_struct_gen::generate::{can_generate, generate};
use openapi_struct_gen::model::{
    ExtraProperties, ArrayType, IntegerFormat, NumberFormat, ObjectForm, RefOr, SchemaObject, SchemaForm, StringType,
    TypeForm,
};
use openapi_struct_gen::name_map::NameMap;
use openapi_struct_gen::parse::SchemaMap;

fn schema(kind: SchemaForm) -> SchemaObject {
    SchemaObject { title: None, description: None, nullable: false, kind }
}

fn described(description: &str, kind: SchemaForm) -> SchemaObject {
    SchemaObject { title: None, description: Some(description.to_string()), nullable: false, kind }
}

fn object_kind(props: Vec<(&str, RefOr<SchemaObject>)>, required: Vec<&str>) -> SchemaForm {
    SchemaForm::TypeForm(TypeForm::Object(ObjectForm {
        properties: props.into_iter().map(|(k, v)| (k.to_string(), v)).collect(),
        required: required.into_iter().map(|r| r.to_string()).collect(),
        additional_properties: None,
    }))
}

fn string_kind() -> SchemaForm {
    SchemaForm::TypeForm(TypeForm::String(StringType { enumeration: vec![] }))
}

fn enum_kind(values: Vec<Option<&str>>) -> SchemaForm {
    SchemaForm::TypeForm(TypeForm::String(StringType { enumeration: values.into_iter().map(|v| v.map(|s| s.to_string())).collect() }))
}

fn reference(name: &str) -> RefOr<SchemaObject> {
    RefOr::Reference(format!("#/components/schemas/{}", name))
}

fn map_of(entries: Vec<(&str, SchemaObject)>) -> SchemaMap {
    let mut m = NameMap::new();
    for (k, v) in entries {
        m.insert(k.to_string(), v);
    }
    m
}

fn plain(m: SchemaMap) -> String {
    generate(m, None, None, None, None, None, false)
}

#[test]
fn object_becomes_struct() {
    let pet = described(
        "A pet.",
        object_kind(
            vec![("name", RefOr::Item(schema(string_kind()))), ("tag", RefOr::Item(schema(string_kind())))],
            vec!["name"],
        ),
    );
    let out = plain(map_of(vec![("Pet", pet)]));
    assert_eq!(
        out,
        "/// A pet.\n\n///\n\n/// Type: `object`\n\n#[derive(Debug)]\n\npub struct Pet {\n    /// Type: `string`\n    pub name: String,\n    /// Type: `string`\n    pub tag: Option<String>,\n}"
    );
}

#[test]
fn nullable_required_property_is_optional() {
    let mut n = schema(string_kind());
    n.nullable = true;
    let out = plain(map_of(vec![("Pet", schema(object_kind(vec![("nick", RefOr::Item(n))], vec!["nick"])))]));
    assert!(out.contains("pub nick: Option<String>,"));
}

#[test]
fn renamed_and_keyword_fields() {
    let out = plain(map_of(vec![(
        "Pet",
        schema(object_kind(
            vec![("petType", RefOr::Item(schema(string_kind()))), ("type", RefOr::Item(schema(string_kind())))],
            vec!["petType", "type"],
        )),
    )]));
    assert!(out.contains("#[serde(rename = \"petType\")]\n    pub pet_type: String,"));
    assert!(out.contains("#[serde(rename = \"type\")]\n    pub r#type: String,"));
}

#[test]
fn reference_property_documents_its_target() {
    let owner = described("The owner.", object_kind(vec![("id", RefOr::Item(schema(string_kind())))], vec![]));
    let pet = schema(object_kind(vec![("owner", reference("Owner")), ("ghost", reference("Missing"))], vec!["owner"]));
    let out = plain(map_of(vec![("Owner", owner), ("Pet", pet)]));
    assert!(out.contains("    /// The owner.\n    /// \n    /// Type: `object`\n    pub owner: Owner,"));
    assert!(out.contains("    /// Type: `reference`\n    pub ghost: Option<Missing>,"));
}

#[test]
fn string_enum_becomes_enum() {
    let out = generate(
        map_of(vec![("Color", schema(enum_kind(vec![Some("red"), None, Some("DarkBlue"), Some("light-green")])))]),
        Some(&["Default"]),
        None,
        None,
        None,
        None,
        false,
    );
    assert!(out.contains("/// Type: `string (enum)`"));
    assert!(out.contains("#[derive(Debug, Default)]"));
    assert!(out.contains("pub enum Color {"));
    assert!(out.contains("#[default]"));
    assert!(out.contains("#[serde(rename = \"red\")]"));
    assert!(out.contains("Red,"));
    assert!(out.contains("    DarkBlue,\n"));
    assert!(out.contains("#[serde(rename = \"light-green\")]"));
    assert!(out.contains("LightGreen,"));
    assert_eq!(out.matches("#[default]").count(), 1);
}

#[test]
fn string_enum_without_default_has_no_default_attribute() {
    let out = plain(map_of(vec![("Color", schema(enum_kind(vec![Some("Red"), Some("Blue")])))]));
    assert!(!out.contains("#[default]"));
    assert!(out.contains("pub enum Color {\n    Red,\n    Blue,\n}"));
}

#[test]
fn one_of_becomes_enum_body() {
    let circle_inline = SchemaObject {
        title: Some("Round Thing".to_string()),
        description: None,
        nullable: false,
        kind: object_kind(vec![("radius", RefOr::Item(schema(SchemaForm::TypeForm(TypeForm::Number(NumberFormat::Double)))))], vec![]),
    };
    let shape = schema(SchemaForm::OneOf(vec![
        reference("Square"),
        RefOr::Item(circle_inline),
        RefOr::Item(schema(SchemaForm::TypeForm(TypeForm::Integer(IntegerFormat::Int32)))),
    ]));
    let square = schema(object_kind(vec![("side", RefOr::Item(schema(SchemaForm::TypeForm(TypeForm::Number(NumberFormat::Float)))))], vec!["side"]));
    let out = generate(map_of(vec![("Shape", shape), ("Square", square)]), None, None, None, None, None, true);
    assert!(out.contains(
        "pub enum Shape {\n    Square(Square),\n    RoundThing {\n        #[serde(skip_serializing_if = \"Option::is_none\")]\n        radius: Option<f64>,\n    },\n    ShapeVariant2(i32),\n}"
    ));
    assert!(out.contains("/// Type: `oneOf`"));
    assert!(out.contains("pub side: f32,"));
}

#[test]
fn any_of_members_named_by_position() {
    let any = schema(SchemaForm::AnyOf(vec![RefOr::Item(schema(string_kind())), RefOr::Item(schema(SchemaForm::TypeForm(TypeForm::Boolean)))]));
    let out = plain(map_of(vec![("Value", any)]));
    assert!(out.contains("pub enum Value {\n    ValueVariant0(String),\n    ValueVariant1(bool),\n}"));
    assert!(out.contains("/// Type: `anyOf`"));
}

#[test]
fn other_types_become_aliases() {
    let ids = schema(SchemaForm::TypeForm(TypeForm::Array(ArrayType { items: Some(Box::new(RefOr::Item(schema(SchemaForm::TypeForm(TypeForm::Integer(IntegerFormat::Int64))))))})));
    let flag = schema(SchemaForm::TypeForm(TypeForm::Boolean));
    let text = schema(string_kind());
    let out = plain(map_of(vec![("Ids", ids), ("Flag", flag), ("Text", text)]));
    assert!(out.contains("/// Type: `array`\n\npub type Ids = Vec<i64>;"));
    assert!(out.contains("/// Type: `boolean`\n\npub type Flag = bool;"));
    assert!(out.contains("pub type Text = String;"));
}

#[test]
fn maps_by_additional_properties() {
    let by_ref = schema(SchemaForm::TypeForm(TypeForm::Object(ObjectForm {
        properties: vec![],
        required: vec![],
        additional_properties: Some(ExtraProperties::SchemaObject(Box::new(reference("Pet")))),
    })));
    let any = schema(SchemaForm::TypeForm(TypeForm::Object(ObjectForm {
        properties: vec![],
        required: vec![],
        additional_properties: Some(ExtraProperties::Any(true)),
    })));
    let holder = schema(object_kind(vec![("pets", RefOr::Item(by_ref)), ("extra", RefOr::Item(any))], vec!["pets", "extra"]));
    let out = plain(map_of(vec![("Holder", holder)]));
    assert!(out.contains("pub pets: std::collections::BTreeMap<String, Pet>,"));
    assert!(out.contains("pub extra: std::collections::BTreeMap<String, serde_json::Value>,"));
}

#[test]
fn all_of_merges_members() {
    let base = schema(object_kind(vec![("id", RefOr::Item(schema(string_kind()))), ("name", RefOr::Item(schema(string_kind())))], vec!["id"]));
    let extra = schema(object_kind(vec![("name", RefOr::Item(schema(SchemaForm::TypeForm(TypeForm::Boolean)))), ("age", RefOr::Item(schema(SchemaForm::TypeForm(TypeForm::Integer(IntegerFormat::Unspecified)))))], vec!["age"]));
    let combo = schema(SchemaForm::AllOf(vec![reference("Base"), RefOr::Item(extra), reference("Base"), reference("Combo")]));
    let out = plain(map_of(vec![("Base", base), ("Combo", combo)]));
    assert!(out.contains("/// Type: `allOf`\n\n#[derive(Debug)]\n\npub struct Combo {\n    /// Type: `string`\n    pub id: String,\n    /// Type: `boolean`\n    pub name: Option<bool>,\n    /// Type: `integer`\n    pub age: i32,\n}"));
}

#[test]
fn annotations_respect_exceptions() {
    let a = schema(object_kind(vec![("x", RefOr::Item(schema(string_kind())))], vec![]));
    let b = schema(object_kind(vec![("y", RefOr::Item(schema(string_kind())))], vec![]));
    let out = generate(
        map_of(vec![("A", a), ("B", b)]),
        Some(&["Clone"]),
        None,
        Some(&[("#[before_all]", None), ("#[before_not_a]", Some(&["A"]))]),
        Some(&[("#[after_not_b]", Some(&["B", "C"]))]),
        None,
        false,
    );
    assert_eq!(out.matches("#[before_all]").count(), 2);
    assert_eq!(out.matches("#[before_not_a]").count(), 1);
    assert_eq!(out.matches("#[after_not_b]").count(), 1);
    let a_part = &out[..out.find("pub struct B").unwrap()];
    assert!(a_part.contains("#[before_all]\n\n#[derive(Debug, Clone)]\n\n#[after_not_b]\n\npub struct A {"));
}

#[test]
fn field_annotations_by_type() {
    let m = map_of(vec![(
        "Page",
        schema(object_kind(
            vec![
                ("size", RefOr::Item(schema(SchemaForm::TypeForm(TypeForm::Integer(IntegerFormat::Int64))))),
                ("offset", RefOr::Item(schema(SchemaForm::TypeForm(TypeForm::Integer(IntegerFormat::Int64))))),
                ("label", RefOr::Item(schema(string_kind()))),
            ],
            vec!["size"],
        )),
    )]);
    let out = generate(m, None, None, None, None, Some(&[("integer", "#[req]", "#[opt]"), ("string", "#[s_req]", "#[s_opt]")]), true);
    assert!(out.contains("    #[req]\n    pub size: i64,"));
    assert!(out.contains("    #[opt]\n    #[serde(skip_serializing_if = \"Option::is_none\")]\n    pub offset: Option<i64>,"));
    assert!(out.contains("    #[s_opt]\n    #[serde(skip_serializing_if = \"Option::is_none\")]\n    pub label: Option<String>,"));
}

#[test]
fn imports_are_grouped_and_written_once() {
    let out = generate(
        map_of(vec![("Flag", schema(SchemaForm::TypeForm(TypeForm::Boolean)))]),
        None,
        Some(&[("serde", "Serialize"), ("serde", "Serialize"), ("serde_with", "skip_serializing_none"), ("std::fmt", "Display::fmt")]),
        None,
        None,
        None,
        false,
    );
    assert!(out.starts_with("use serde::Serialize;\nuse serde_with::skip_serializing_none;\nuse std::fmt::Display;\n\n"));
}

#[test]
fn imports_of_one_path_share_a_line() {
    let out = generate(
        map_of(vec![("Flag", schema(SchemaForm::TypeForm(TypeForm::Boolean)))]),
        None,
        Some(&[("a", "X"), ("b", "Y"), ("a", "Z"), ("a", "X")]),
        None,
        None,
        None,
        false,
    );
    assert!(out.starts_with("use a::{X, Z};\nuse b::Y;\n\n"));
}

#[test]
fn names_are_sanitized() {
    let out = plain(map_of(vec![("my-type", schema(SchemaForm::TypeForm(TypeForm::Boolean))), ("2fa", schema(string_kind()))]));
    assert!(out.contains("pub type my_type = bool;"));
    assert!(out.contains("pub type _2fa = String;"));
}

#[test]
fn not_and_any_write_nothing() {
    let out = plain(map_of(vec![("N", schema(SchemaForm::Not)), ("A", schema(SchemaForm::Any))]));
    assert_eq!(out, "");
}

#[test]
fn can_generate_rejects_bad_references_and_item_less_arrays() {
    let ok = map_of(vec![("Pet", schema(object_kind(vec![("owner", reference("Owner"))], vec![])))]);
    assert!(can_generate(&ok));
    let bad_ref = map_of(vec![(
        "Pet",
        schema(object_kind(vec![("owner", RefOr::Reference("#/components/responses/Owner".to_string()))], vec![])),
    )]);
    assert!(!can_generate(&bad_ref));
    let no_items = map_of(vec![("List", schema(SchemaForm::TypeForm(TypeForm::Array(ArrayType { items: None }))))]);
    assert!(!can_generate(&no_items));
    let one_of_ref = map_of(vec![("Shape", schema(SchemaForm::OneOf(vec![RefOr::Reference("elsewhere#/x".to_string())])))]);
    assert!(can_generate(&one_of_ref));
}
