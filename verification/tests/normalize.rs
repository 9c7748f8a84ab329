use openapi_struct_gen::model::{ArrayType, ObjectForm, RefOr, SchemaObject, SchemaForm, StringType, TypeForm};
use openapi_struct_gen::name_map::NameMap;
use openapi_struct_gen::normalize::{normalize, normalize_fits, normalize_if_fits};
use openapi_struct_gen::parse::SchemaMap;

fn schema(kind: SchemaForm) -> SchemaObject {
    SchemaObject { title: None, description: None, nullable: false, kind }
}

fn titled(title: &str, kind: SchemaForm) -> SchemaObject {
    SchemaObject { title: Some(title.to_string()), description: None, nullable: false, kind }
}

fn object_kind(props: Vec<(&str, RefOr<SchemaObject>)>) -> SchemaForm {
    SchemaForm::TypeForm(TypeForm::Object(ObjectForm {
        properties: props.into_iter().map(|(k, v)| (k.to_string(), v)).collect(),
        required: vec![],
        additional_properties: None,
    }))
}

fn string_kind() -> SchemaForm {
    SchemaForm::TypeForm(TypeForm::String(StringType { enumeration: vec![] }))
}

fn enum_kind(values: &[&str]) -> SchemaForm {
    SchemaForm::TypeForm(TypeForm::String(StringType { enumeration: values.iter().map(|v| Some(v.to_string())).collect() }))
}

fn map_of(entries: Vec<(&str, SchemaObject)>) -> SchemaMap {
    let mut m = NameMap::new();
    for (k, v) in entries {
        m.insert(k.to_string(), v);
    }
    m
}

fn reference_of(slot: &RefOr<SchemaObject>) -> Option<String> {
    match slot {
        RefOr::Reference(r) => Some(r.clone()),
        RefOr::Item(_) => None,
    }
}

fn property<'a>(m: &'a SchemaMap, name: &str, prop: &str) -> &'a RefOr<SchemaObject> {
    match &m.get(name).unwrap().kind {
        SchemaForm::TypeForm(TypeForm::Object(o)) => &o.properties.iter().find(|(k, _)| k == prop).unwrap().1,
        _ => panic!("not an object"),
    }
}

#[test]
fn nested_object_is_lifted() {
    let owner = schema(object_kind(vec![("name", RefOr::Item(schema(string_kind())))]));
    let mut m = map_of(vec![("Pet", schema(object_kind(vec![("owner", RefOr::Item(owner))])))]);
    normalize(&mut m);
    assert_eq!(m.keys(), vec!["Pet", "PetOwner"]);
    assert_eq!(reference_of(property(&m, "Pet", "owner")), Some("#/components/schemas/PetOwner".to_string()));
}

#[test]
fn title_names_the_lifted_schema() {
    let owner = titled("  person ", object_kind(vec![("name", RefOr::Item(schema(string_kind())))]));
    let mut m = map_of(vec![("Pet", schema(object_kind(vec![("owner", RefOr::Item(owner))])))]);
    normalize(&mut m);
    assert_eq!(m.keys(), vec!["Person", "Pet"]);
    assert_eq!(reference_of(property(&m, "Pet", "owner")), Some("#/components/schemas/Person".to_string()));
}

#[test]
fn unicode_white_space_is_trimmed_from_titles() {
    let owner = titled("\u{3000}\u{a0}person\u{2028}\t", object_kind(vec![("name", RefOr::Item(schema(string_kind())))]));
    let mut m = map_of(vec![("Pet", schema(object_kind(vec![("owner", RefOr::Item(owner))])))]);
    normalize(&mut m);
    assert_eq!(m.keys(), vec!["Person", "Pet"]);
}

#[test]
fn taken_name_gets_a_number() {
    let color = schema(enum_kind(&["red", "green"]));
    let mut m = map_of(vec![
        ("Pet", schema(object_kind(vec![("color", RefOr::Item(color))]))),
        ("PetColor", schema(string_kind())),
    ]);
    normalize(&mut m);
    assert_eq!(m.keys(), vec!["Pet", "PetColor", "PetColor2"]);
    assert_eq!(reference_of(property(&m, "Pet", "color")), Some("#/components/schemas/PetColor2".to_string()));
}

#[test]
fn plain_properties_stay_in_place() {
    let mut m = map_of(vec![("Pet", schema(object_kind(vec![("name", RefOr::Item(schema(string_kind())))])))]);
    normalize(&mut m);
    assert_eq!(m.keys(), vec!["Pet"]);
    assert!(reference_of(property(&m, "Pet", "name")).is_none());
}

#[test]
fn array_items_and_all_of_members_are_lifted() {
    let item = schema(object_kind(vec![("id", RefOr::Item(schema(string_kind())))]));
    let list = schema(SchemaForm::TypeForm(TypeForm::Array(ArrayType { items: Some(Box::new(RefOr::Item(item))) })));
    let member = schema(object_kind(vec![("extra", RefOr::Item(schema(string_kind())))]));
    let combo = schema(SchemaForm::AllOf(vec![RefOr::Reference("#/components/schemas/List".to_string()), RefOr::Item(member)]));
    let mut m = map_of(vec![("List", list), ("Combo", combo)]);
    normalize(&mut m);
    assert_eq!(m.keys(), vec!["Combo", "ComboAllOf1", "List", "ListItem"]);
}

#[test]
fn one_of_members_stay_and_their_nested_schemas_lift() {
    let inner = schema(object_kind(vec![("x", RefOr::Item(schema(string_kind())))]));
    let member = schema(object_kind(vec![("point", RefOr::Item(inner))]));
    let shape = schema(SchemaForm::OneOf(vec![RefOr::Item(member)]));
    let mut m = map_of(vec![("Shape", shape)]);
    normalize(&mut m);
    assert_eq!(m.keys(), vec!["Shape", "ShapeVariant0Point"]);
}

#[test]
fn deeply_nested_schemas_all_lift() {
    let c = schema(object_kind(vec![("v", RefOr::Item(schema(string_kind())))]));
    let b = schema(object_kind(vec![("c", RefOr::Item(c))]));
    let a = schema(object_kind(vec![("b", RefOr::Item(b))]));
    let mut m = map_of(vec![("A", a)]);
    normalize(&mut m);
    assert_eq!(m.keys(), vec!["A", "AB", "ABC"]);
    assert_eq!(reference_of(property(&m, "AB", "c")), Some("#/components/schemas/ABC".to_string()));
}

#[test]
fn normalize_twice_changes_nothing_more() {
    let owner = schema(object_kind(vec![("name", RefOr::Item(schema(string_kind())))]));
    let mut m = map_of(vec![("Pet", schema(object_kind(vec![("owner", RefOr::Item(owner))])))]);
    normalize(&mut m);
    let first = m.keys();
    normalize(&mut m);
    assert_eq!(m.keys(), first);
    assert_eq!(reference_of(property(&m, "Pet", "owner")), Some("#/components/schemas/PetOwner".to_string()));
}

#[test]
fn normalize_fits_small_maps() {
    let mut m = map_of(vec![("Pet", schema(string_kind()))]);
    assert!(normalize_fits(&m));
    assert!(normalize_if_fits(&mut m));
    assert_eq!(m.keys(), vec!["Pet"]);
}

#[test]
fn lifted_schema_titled_like_its_parent_gives_way_to_it() {
    let inner = titled("Foo", object_kind(vec![("x", RefOr::Item(schema(string_kind())))]));
    let mut m = map_of(vec![("Foo", schema(object_kind(vec![("bar", RefOr::Item(inner))])))]);
    normalize(&mut m);
    assert_eq!(m.keys(), vec!["Foo"]);
    assert_eq!(reference_of(property(&m, "Foo", "bar")), Some("#/components/schemas/Foo".to_string()));
}
