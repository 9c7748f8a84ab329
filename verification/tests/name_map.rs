use openapi_struct_gen::name_map::{compare_names, NameMap};

#[test]
fn insert_get_remove() {
    let mut m: NameMap<u32> = NameMap::new();
    m.insert("b".to_string(), 2);
    m.insert("a".to_string(), 1);
    m.insert("c".to_string(), 3);
    assert_eq!(m.len(), 3);
    assert_eq!(m.get("a"), Some(&1));
    assert!(m.contains_key("c"));
    assert!(!m.contains_key("d"));
    m.insert("a".to_string(), 10);
    assert_eq!(m.len(), 3);
    assert_eq!(m.get("a"), Some(&10));
    assert_eq!(m.remove("b"), Some(2));
    assert_eq!(m.remove("b"), None);
    assert_eq!(m.keys(), vec!["a", "c"]);
}

#[test]
fn keys_in_byte_order() {
    let mut m: NameMap<()> = NameMap::new();
    for k in ["b", "B", "aa", "a", "é", "z", "Z9", "_"] {
        m.insert(k.to_string(), ());
    }
    assert_eq!(m.keys(), vec!["B", "Z9", "_", "a", "aa", "b", "z", "é"]);
}

#[test]
fn compare_names_orders_like_str() {
    assert!(compare_names("a", "b") < 0);
    assert!(compare_names("b", "a") > 0);
    assert_eq!(compare_names("ab", "ab"), 0);
    assert!(compare_names("a", "ab") < 0);
    assert!(compare_names("z", "é") < 0);
}
