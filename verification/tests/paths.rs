use oji::Graph;

fn t(s: &str, p: &str, o: &str) -> (String, String, String) {
    (s.to_string(), p.to_string(), o.to_string())
}

fn some(s: &str) -> Option<String> {
    Some(s.to_string())
}

fn row(values: &[&str]) -> Vec<String> {
    values.iter().map(|s| s.to_string()).collect()
}

fn sorted(mut v: Vec<Vec<String>>) -> Vec<Vec<String>> {
    v.sort();
    v
}

fn sample() -> Graph {
    let mut g = Graph::new();
    g.add(t("Gabe", "likes", "James"));
    g.add(t("Gabe", "likes", "Rust"));
    g.add(t("James", "likes", "Java"));
    g.add(t("James", "likes", "Gabe"));
    g.add(t("James", "hates", "Rust"));
    g.add(t("Rust", "is", "fast"));
    g
}

#[test]
fn path_of_one_position_asks_for_subjects() {
    let g = sample();
    assert_eq!(sorted(g.get(&[None])), vec![row(&["Gabe"]), row(&["James"]), row(&["Rust"])]);
    assert_eq!(g.get(&[some("James")]), vec![row(&["James"])]);
    assert_eq!(g.get(&[some("Java")]), Vec::<Vec<String>>::new());
    assert_eq!(g.get_subject(&some("Rust")), vec!["Rust".to_string()]);
}

#[test]
fn path_of_two_positions_lists_subject_and_predicate_once() {
    let g = sample();
    assert_eq!(
        sorted(g.get(&[None, None])),
        vec![row(&["Gabe", "likes"]), row(&["James", "hates"]), row(&["James", "likes"]), row(&["Rust", "is"])]
    );
    assert_eq!(sorted(g.get(&[some("James"), None])), vec![row(&["James", "hates"]), row(&["James", "likes"])]);
    assert_eq!(sorted(g.get(&[None, some("likes")])), vec![row(&["Gabe", "likes"]), row(&["James", "likes"])]);
    assert_eq!(g.get(&[some("Gabe"), some("likes")]), vec![row(&["Gabe", "likes"])]);
    assert_eq!(g.get(&[some("Gabe"), some("hates")]), Vec::<Vec<String>>::new());
}

#[test]
fn path_of_three_positions_is_a_lookup() {
    let g = sample();
    assert_eq!(
        sorted(g.get(&[None, some("likes"), None])),
        vec![
            row(&["Gabe", "likes", "James"]),
            row(&["Gabe", "likes", "Rust"]),
            row(&["James", "likes", "Gabe"]),
            row(&["James", "likes", "Java"]),
        ]
    );
    assert_eq!(g.get(&[None, None, some("fast")]), vec![row(&["Rust", "is", "fast"])]);
}

#[test]
fn path_that_ends_on_an_edge() {
    let g = sample();
    assert_eq!(
        sorted(g.get(&[some("Gabe"), some("likes"), None, None])),
        vec![
            row(&["Gabe", "likes", "James", "hates"]),
            row(&["Gabe", "likes", "James", "likes"]),
            row(&["Gabe", "likes", "Rust", "is"]),
        ]
    );
    assert_eq!(
        g.get(&[some("Gabe"), some("likes"), None, some("is")]),
        vec![row(&["Gabe", "likes", "Rust", "is"])]
    );
    assert_eq!(g.get(&[some("Gabe"), some("likes"), some("Java"), None]), Vec::<Vec<String>>::new());
}

#[test]
fn path_drops_rows_that_cannot_go_on() {
    let g = sample();
    assert_eq!(
        sorted(g.get(&[some("Gabe"), None, None, some("is"), None])),
        vec![row(&["Gabe", "likes", "Rust", "is", "fast"])]
    );
    assert_eq!(g.get(&[some("Gabe"), None, None, some("is"), some("slow")]), Vec::<Vec<String>>::new());
}

#[test]
fn path_may_visit_a_node_again() {
    let g = sample();
    assert_eq!(
        sorted(g.get(&[some("Gabe"), some("likes"), None, some("likes"), None])),
        vec![row(&["Gabe", "likes", "James", "likes", "Gabe"]), row(&["Gabe", "likes", "James", "likes", "Java"])]
    );
    assert_eq!(
        sorted(g.get(&[some("Gabe"), some("likes"), None, some("likes"), None, some("likes"), None])),
        vec![
            row(&["Gabe", "likes", "James", "likes", "Gabe", "likes", "James"]),
            row(&["Gabe", "likes", "James", "likes", "Gabe", "likes", "Rust"]),
        ]
    );
}

#[test]
fn path_keeps_copies_whose_end_has_continuations_of_its_own() {
    let mut g = Graph::new();
    g.add(t("a", "to", "b"));
    g.add(t("b", "to", "c"));
    g.add(t("b", "to", "d"));
    g.add(t("c", "to", "e"));
    g.add(t("d", "to", "f"));
    g.add(t("d", "to", "g"));
    assert_eq!(
        sorted(g.get(&[some("a"), some("to"), None, some("to"), None])),
        vec![row(&["a", "to", "b", "to", "c"]), row(&["a", "to", "b", "to", "d"])]
    );
    assert_eq!(
        sorted(g.get(&[some("a"), None, None, None, None, None, None])),
        vec![
            row(&["a", "to", "b", "to", "c", "to", "e"]),
            row(&["a", "to", "b", "to", "d", "to", "f"]),
            row(&["a", "to", "b", "to", "d", "to", "g"]),
        ]
    );
    assert_eq!(
        sorted(g.get(&[None, None, None, None, None, None, None, None])),
        Vec::<Vec<String>>::new()
    );
    assert_eq!(
        sorted(g.get(&[some("a"), None, None, None, None, None])),
        vec![row(&["a", "to", "b", "to", "c", "to"]), row(&["a", "to", "b", "to", "d", "to"])]
    );
}

#[test]
fn path_rows_are_walks_through_the_graph() {
    let g = sample();
    let pattern = [None, None, None, None, None];
    let rows = g.get(&pattern);
    assert_eq!(rows.len(), 7);
    for r in rows.iter() {
        assert_eq!(r.len(), 5);
        assert_eq!(g.get_triple(&(Some(r[0].clone()), Some(r[1].clone()), Some(r[2].clone()))).len(), 1);
        assert_eq!(g.get_triple(&(Some(r[2].clone()), Some(r[3].clone()), Some(r[4].clone()))).len(), 1);
    }
    let mut distinct = rows.clone();
    distinct.sort();
    distinct.dedup();
    assert_eq!(distinct.len(), rows.len());
}
