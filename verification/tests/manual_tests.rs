use oji::{Graph, OjiQuery};

#[test]
fn gabe() {
    let mut g = Graph::new();
    g.add(("Gabe".into(), "is".into(), "male".into()));
    g.add(("James".into(), "is".into(), "cool".into()));
    g.add(("Gabe".into(), "is".into(), "cool".into()));
    g.add(("Harry".into(), "is not".into(), "cool".into()));
    let q = OjiQuery::new()
        .from(&g)
        .select(&["$name"])
        .filter(&[["$name", "is", "cool"]])
        .unwrap()
        .fetch();
    println!("{:#?}", q);
    let mut names: Vec<String> = q.results.iter().map(|r| r.get_var("name").unwrap()).collect();
    names.sort();
    assert_eq!(names, vec![String::from("Gabe"), String::from("James")]);
}
