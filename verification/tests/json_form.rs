use oji::json::triples_of_nested;
use oji::{Graph, JsonError, TripleStore};

fn t(s: &str, p: &str, o: &str) -> (String, String, String) {
    (s.to_string(), p.to_string(), o.to_string())
}

fn sorted<T: Ord>(mut v: Vec<T>) -> Vec<T> {
    v.sort();
    v
}

#[test]
fn graph_is_written_as_nested_objects() {
    let mut g = Graph::new();
    g.add(t("Gabe", "likes", "Rust"));
    g.add(t("Gabe", "likes", "C++"));
    g.add(t("Gabe", "is", "male"));
    g.add(t("Alan", "is", "old"));
    assert_eq!(
        g.json().unwrap(),
        "{\"Alan\":{\"is\":[\"old\"]},\"Gabe\":{\"is\":[\"male\"],\"likes\":[\"Rust\",\"C++\"]}}"
    );
    assert_eq!(Graph::new().json().unwrap(), "{}");
    assert_eq!(g.clone().into_json().unwrap(), g.json().unwrap());
    assert_eq!(g.pos.json().unwrap(), "{\"is\":{\"male\":[\"Gabe\"],\"old\":[\"Alan\"]},\"likes\":{\"C++\":[\"Gabe\"],\"Rust\":[\"Gabe\"]}}");
}

#[test]
fn graph_is_read_with_all_three_rotations() {
    let g = Graph::from_json("{\"Gabe\":{\"likes\":[\"Rust\",\"Scala\",\"Rust\"],\"is\":[\"male\"]}}").unwrap();
    let mut expected = Graph::new();
    expected.add(t("Gabe", "is", "male"));
    expected.add(t("Gabe", "likes", "Rust"));
    expected.add(t("Gabe", "likes", "Scala"));
    assert_eq!(g, expected);
    assert_eq!(g.get_triple(&(None, None, Some("Scala".to_string()))), vec![t("Gabe", "likes", "Scala")]);
    assert_eq!(Graph::from_json("{}").unwrap(), Graph::new());
    assert_eq!(Graph::from_json(" { \"a\" : { } } ").unwrap(), Graph::new());
}

#[test]
fn what_is_written_can_be_read_back() {
    let mut g = Graph::new();
    g.add(t("b", "x", "1"));
    g.add(t("a", "y", "2"));
    g.add(t("a", "x", "3"));
    g.add(t("a", "x", "\"quoted\" \\ \n"));
    let back = Graph::from_json(&g.json().unwrap()).unwrap();
    assert_eq!(sorted(back.get_triple(&(None, None, None))), sorted(g.get_triple(&(None, None, None))));
    let store = TripleStore::from_json(&g.osp.json().unwrap()).unwrap();
    assert_eq!(sorted(store.get_triple(&(None, None, None))), sorted(g.osp.get_triple(&(None, None, None))));
}

#[test]
fn text_that_is_not_the_json_form_is_refused() {
    assert_eq!(Graph::from_json("{\"Gabe\":").err(), Some(JsonError::Eof));
    assert_eq!(Graph::from_json("").err(), Some(JsonError::Eof));
    assert_eq!(Graph::from_json("{Gabe}").err(), Some(JsonError::Syntax));
    assert_eq!(Graph::from_json("{} x").err(), Some(JsonError::Syntax));
    assert_eq!(Graph::from_json("{\"Gabe\":{\"likes\":\"Rust\"}}").err(), Some(JsonError::Data));
    assert_eq!(Graph::from_json("[1, 2]").err(), Some(JsonError::Data));
    assert_eq!(TripleStore::from_json("{\"a\":{\"b\":[1]}}").err(), Some(JsonError::Data));
    assert_ne!(JsonError::Io, JsonError::Data);
}

#[test]
fn triples_of_a_json_form_are_stored_and_removed() {
    let mut g = Graph::new();
    g.add(t("Gabe", "likes", "Rust"));
    assert_eq!(g.insert_json("{\"Gabe\":{\"likes\":[\"Rust\",\"C++\"]},\"Matt\":{\"likes\":[\"JS\"]}}"), Ok(()));
    assert_eq!(
        sorted(g.get_triple(&(None, None, None))),
        vec![t("Gabe", "likes", "C++"), t("Gabe", "likes", "Rust"), t("Matt", "likes", "JS")]
    );
    let before = g.clone();
    assert_eq!(g.insert_json("{\"Gabe\""), Err(JsonError::Eof));
    assert_eq!(g.remove_json("nonsense"), Err(JsonError::Syntax));
    assert_eq!(g, before);
    assert_eq!(g.remove_json("{\"Gabe\":{\"likes\":[\"Rust\",\"Go\"]},\"Matt\":{\"likes\":[\"JS\"]}}"), Ok(()));
    assert_eq!(g.get_triple(&(None, None, None)), vec![t("Gabe", "likes", "C++")]);
}

#[test]
fn nested_values_are_listed_head_by_head() {
    let nested = vec![
        ("a".to_string(), vec![("b".to_string(), vec!["c".to_string(), "d".to_string()]), ("e".to_string(), vec![])]),
        ("a".to_string(), vec![("b".to_string(), vec!["c".to_string()])]),
    ];
    assert_eq!(triples_of_nested(&nested), vec![t("a", "b", "c"), t("a", "b", "d"), t("a", "b", "c")]);
    let g = Graph::from_nested(&nested);
    assert_eq!(g.get_triple(&(None, None, None)), vec![t("a", "b", "c"), t("a", "b", "d")]);
    let s = TripleStore::from_nested(&nested);
    assert_eq!(s, g.spo);
}
