use oji::TripleStore;

#[test]
fn into_json() {
    let mut t = TripleStore::new();
    t.add(("Gabe".into(), "likes".into(), "Rust".into()));
    let json = t.json().unwrap();
    let expected_json = String::from("{\"Gabe\":{\"likes\":[\"Rust\"]}}");
    assert_eq!(json, expected_json);
}

#[test]
fn from_json() {
    let t = TripleStore::from_json("{\"Gabe\":{\"likes\":[\"Rust\"]}}").unwrap();
    let mut expected_t = TripleStore::new();
    expected_t.add(("Gabe".into(), "likes".into(), "Rust".into()));
    assert_eq!(t, expected_t);
}
