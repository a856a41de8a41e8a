use cyfs_gateway::process_chain::chain::body::{
    DocValue, Element, JSONModifier, JsonValue, TomlModifier, TomlValue, XMLNode, XmlModifier,
};

fn s(t: &str) -> DocValue {
    DocValue::Scalar(t.to_string())
}

fn table(es: Vec<(&str, DocValue)>) -> DocValue {
    DocValue::Table(es.into_iter().map(|(k, v)| (k.to_string(), v)).collect())
}

fn scalar_text(d: &DocValue) -> String {
    match d {
        DocValue::Scalar(t) => t.clone(),
        _ => panic!("expected a scalar"),
    }
}

#[test]
fn json_get_after_set() {
    let mut j = JsonValue(table(vec![("a", table(vec![("b", s("1"))]))]));
    assert_eq!(scalar_text(&j.get("a.b").unwrap().unwrap().0), "1");
    assert_eq!(scalar_text(&j.get("/a/b").unwrap().unwrap().0), "1");
    assert!(j.get("a.x").unwrap().is_none());
    // The first scalar met on the way is the answer.
    assert_eq!(scalar_text(&j.get("a.b.c").unwrap().unwrap().0), "1");
    assert_eq!(j.set("a.c.d", JsonValue(s("true"))), Ok(()));
    assert_eq!(scalar_text(&j.get("a.c.d").unwrap().unwrap().0), "true");
    assert_eq!(j.set("a.b.x", JsonValue(s("2"))), Err("Invalid path: x".to_string()));
    assert_eq!(scalar_text(&j.get("a.b").unwrap().unwrap().0), "1");
}

#[test]
fn json_arrays() {
    let mut j = JsonValue(table(vec![("l", DocValue::Array(vec![s("0")]))]));
    assert_eq!(j.get("l.x").err(), Some("Invalid array index: x".to_string()));
    assert_eq!(j.set("l[3].k", JsonValue(s("\"v\""))), Ok(()));
    match &j.get("l").unwrap().unwrap().0 {
        DocValue::Array(a) => assert_eq!(a.len(), 4),
        _ => panic!("expected an array"),
    }
    assert_eq!(scalar_text(&j.get("l.3.k").unwrap().unwrap().0), "\"v\"");
    assert_eq!(j.set("l.9", JsonValue(s("9"))), Ok(()));
    assert_eq!(scalar_text(&j.get("l.4").unwrap().unwrap().0), "9");
    assert_eq!(j.set("l.y", JsonValue(s("9"))), Err("Invalid array index: y".to_string()));
}

#[test]
fn json_remove_after_set() {
    let mut j = JsonValue(table(vec![]));
    j.set("a.b", JsonValue(s("1"))).unwrap();
    assert_eq!(scalar_text(&j.remove("a.b").unwrap().unwrap().0), "1");
    assert!(j.get("a.b").unwrap().is_none());
    assert!(j.remove("a.b").unwrap().is_none());
    assert!(j.remove("").unwrap().is_none());
    j.set("n", JsonValue(s("5"))).unwrap();
    assert_eq!(j.remove("n.m").err(), Some("Invalid path: m".to_string()));
}

#[test]
fn toml_messages() {
    let mut t = TomlValue(table(vec![("arr", DocValue::Array(vec![]))]));
    assert_eq!(
        t.set("arr.x", TomlValue(s("1"))),
        Err("Array index 'x' must be a number at position 1".to_string())
    );
    assert_eq!(t.set("arr.0", TomlValue(s("1"))), Ok(()));
    assert_eq!(scalar_text(&t.get("arr.0").unwrap().unwrap().0), "1");
    assert_eq!(scalar_text(&t.remove("arr.0").unwrap().unwrap().0), "1");
}

fn child_names(e: &Element) -> Vec<String> {
    e.children
        .iter()
        .map(|c| match c {
            XMLNode::Element(x) => x.name.clone(),
            _ => "#".to_string(),
        })
        .collect()
}

#[test]
fn xml_get_after_set() {
    let mut root = Element::new("root");
    assert_eq!(root.set("a", Element::new("a")), Ok(()));
    assert_eq!(child_names(&root), vec!["a"]);
    assert_eq!(root.get("a").unwrap().unwrap().name, "a");
    assert_eq!(root.set("a", Element::new("b")), Ok(()));
    assert_eq!(child_names(&root), vec!["b"]);
    assert_eq!(root.get("0").unwrap().unwrap().name, "b");
    assert!(root.get("7").unwrap().is_none());
    assert!(root.get("zzz").unwrap().is_none());
}

#[test]
fn xml_remove_messages() {
    let mut root = Element::new("root");
    root.children.push(XMLNode::Text("t".to_string()));
    root.children.push(XMLNode::Element(Element::new("k")));
    assert_eq!(
        root.get("0").err(),
        Some("Index '0' is not an element at position 0".to_string())
    );
    assert!(root.remove("5").unwrap().is_none());
    assert_eq!(root.remove("5.x").err(), Some("Index '5' not found at position 0".to_string()));
    assert_eq!(root.remove("0.x").err(), Some("Index '0' not found at position 0".to_string()));
    assert_eq!(root.remove("q").err(), Some("Key 'q' not found at position 0".to_string()));
    assert_eq!(root.remove("k").unwrap().unwrap().name, "k");
    assert_eq!(root.children.len(), 1);
}

#[test]
fn json_set_along_tables_keeps_other_paths() {
    let mut j = JsonValue(table(vec![("a", table(vec![("b", s("1"))])), ("z", s("9"))]));
    assert_eq!(j.set("a.c.d", JsonValue(s("2"))), Ok(()));
    assert_eq!(scalar_text(&j.get("a.c.d").unwrap().unwrap().0), "2");
    assert_eq!(scalar_text(&j.get("a.b").unwrap().unwrap().0), "1");
    assert_eq!(scalar_text(&j.get("z").unwrap().unwrap().0), "9");
    assert!(j.get("a.x").unwrap().is_none());
    // Setting an existing key again keeps one entry for it.
    assert_eq!(j.set("z", JsonValue(s("8"))), Ok(()));
    match &j.0 {
        DocValue::Table(es) => assert_eq!(es.iter().filter(|(k, _)| k == "z").count(), 1),
        _ => panic!("expected a table"),
    }
    assert_eq!(scalar_text(&j.get("z").unwrap().unwrap().0), "8");
}
