use oji::{DBQuery, Graph};

fn t(s: &str, p: &str, o: &str) -> (String, String, String) {
    (s.to_string(), p.to_string(), o.to_string())
}

fn some(s: &str) -> Option<String> {
    Some(s.to_string())
}

fn sorted<T: Ord>(mut v: Vec<T>) -> Vec<T> {
    v.sort();
    v
}

fn row(values: &[&str]) -> Vec<String> {
    values.iter().map(|s| s.to_string()).collect()
}

#[test]
fn lookup_by_subject_and_predicate() {
    let mut g = Graph::new();
    g.add(t("Gabe", "likes", "Rust"));
    g.add(t("Gabe", "likes", "Scala"));
    let found = g.get_triple(&(some("Gabe"), some("likes"), None));
    assert_eq!(sorted(found), vec![t("Gabe", "likes", "Rust"), t("Gabe", "likes", "Scala")]);
}

#[test]
fn lookup_after_erase() {
    let mut g = Graph::new();
    g.add(t("Gabe", "likes", "Rust"));
    g.add(t("Gabe", "likes", "Scala"));
    g.erase(&t("Gabe", "likes", "Scala"));
    let found = g.get_triple(&(some("Gabe"), None, None));
    assert_eq!(found, vec![t("Gabe", "likes", "Rust")]);
}

#[test]
fn path_of_two_hops() {
    let mut g = Graph::new();
    g.add(t("Gabe", "likes", "Rust"));
    g.add(t("Rust", "is", "fast"));
    let rows = g.get(&[some("Gabe"), some("likes"), None, some("is"), None]);
    assert_eq!(rows, vec![row(&["Gabe", "likes", "Rust", "is", "fast"])]);
}

#[test]
fn path_fans_out() {
    let mut g = Graph::new();
    g.add(t("James", "likes", "Java"));
    g.add(t("James", "likes", "C#"));
    let rows = g.get(&[some("James"), some("likes"), None]);
    assert_eq!(rows, vec![row(&["James", "likes", "Java"]), row(&["James", "likes", "C#"])]);
}

#[test]
fn evaluate_binds_variables() {
    let mut g = Graph::new();
    g.add(t("James", "likes", "Java"));
    g.add(t("James", "likes", "C#"));
    let rc = g.get_trial(DBQuery::from_str(&["James", "$opinion", "$object"]));
    assert_eq!(rc.results.len(), 2);
    let mut objects = Vec::new();
    for r in rc.results.iter() {
        assert_eq!(r.get_var("opinion"), Some(String::from("likes")));
        objects.push(r.get_var("object").unwrap());
    }
    assert_eq!(objects, vec![String::from("Java"), String::from("C#")]);
}

#[test]
fn empty_pattern_and_empty_graph() {
    let g = Graph::new();
    let no_rows: Vec<Vec<String>> = Vec::new();
    assert_eq!(g.get(&[]), no_rows);
    assert_eq!(g.get_triple(&(None, None, None)), Vec::new());
    let mut h = Graph::new();
    h.add(t("Gabe", "likes", "Rust"));
    assert_eq!(h.get(&[]), no_rows);
}
