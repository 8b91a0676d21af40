use oji::{Graph, OjiQuery, OjiQueryUnit, OjiResultUnit, QueryBuilder, QueryError};

fn t(s: &str, p: &str, o: &str) -> (String, String, String) {
    (s.to_string(), p.to_string(), o.to_string())
}

fn sample() -> Graph {
    let mut g = Graph::new();
    g.add(t("Gabe", "is", "male"));
    g.add(t("James", "is", "cool"));
    g.add(t("Gabe", "is", "cool"));
    g.add(t("Harry", "is not", "cool"));
    g
}

#[test]
fn builder_starts_empty_and_takes_each_part() {
    let g = sample();
    let b = QueryBuilder::new();
    assert!(b.graph.is_none() && b.vars.is_none() && b.conds.is_none());
    let b = OjiQuery::new().from(&g);
    assert!(b.graph.is_some() && b.vars.is_none() && b.conds.is_none());
    let b = b.select(&["$name", "$what"]);
    assert_eq!(b.vars, Some(vec![OjiQueryUnit::Var("name".to_string()), OjiQueryUnit::Var("what".to_string())]));
    let b = b.filter(&[["$name", "is", "$what"], ["Harry", "?", "_"]]).unwrap();
    let conds = b.conds.clone().unwrap();
    assert_eq!(conds.len(), 2);
    assert_eq!(conds[1], [OjiQueryUnit::Val("Harry".to_string()), OjiQueryUnit::Anon, OjiQueryUnit::Ignore]);
    let q = b.compile();
    assert_eq!(q.vars.len(), 2);
    assert_eq!(q.conds.len(), 2);
    assert_eq!(*q.graph, g);
}

#[test]
fn undeclared_variable_is_reported() {
    let g = sample();
    let r = OjiQuery::new().from(&g).select(&["$name"]).filter(&[["$name", "is", "cool"], ["$name", "$how", "$what"]]);
    assert_eq!(r.err(), Some(QueryError::UndeclaredVariable("how".to_string())));
    let r = OjiQuery::new().from(&g).select(&[]).filter(&[["a", "b", "$c"]]);
    assert_eq!(r.err(), Some(QueryError::UndeclaredVariable("c".to_string())));
    let r = OjiQuery::new().from(&g).filter(&[["$anything", "is", "cool"]]);
    assert!(r.is_ok());
    let r = OjiQuery::new().from(&g).select(&["name"]).filter(&[["$name", "is", "cool"]]);
    assert_eq!(r.err(), Some(QueryError::UndeclaredVariable("name".to_string())));
}

#[test]
fn fetch_runs_the_first_condition() {
    let g = sample();
    let rc = OjiQuery::new()
        .from(&g)
        .select(&["$name"])
        .filter(&[["$name", "is", "cool"], ["Harry", "is not", "cool"]])
        .unwrap()
        .fetch();
    assert_eq!(rc.results.len(), 2);
    for r in rc.results.iter() {
        assert_eq!(r.values[1], OjiResultUnit::Val("is".to_string()));
        assert_eq!(r.get_val(2), Some("cool".to_string()));
    }
    let rc = OjiQuery::new().from(&g).select(&[]).filter(&[["Harry", "", "cool"]]).unwrap().compile().fetch();
    assert_eq!(rc.results.len(), 1);
    assert_eq!(rc.results[0].values[1], OjiResultUnit::Nil);
}

#[test]
fn fetch_2_runs_every_condition() {
    let g = sample();
    let rc = OjiQuery::new()
        .from(&g)
        .select(&["$name"])
        .filter(&[["$name", "is", "cool"], ["Harry", "is not", "cool"], ["nobody", "is", "cool"]])
        .unwrap()
        .compile()
        .fetch_2();
    assert_eq!(rc.results.len(), 3);
    assert_eq!(rc.results[2].get_val(0), Some("Harry".to_string()));
}
