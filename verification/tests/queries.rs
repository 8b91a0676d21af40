use oji::evaluate::{bind_row, bind_rows};
use oji::{DBQuery, DBQueryUnit, DBResult, DBResultCollection, DBResultUnit, Graph, TOrder};

fn t(s: &str, p: &str, o: &str) -> (String, String, String) {
    (s.to_string(), p.to_string(), o.to_string())
}

fn val(s: &str) -> DBQueryUnit {
    DBQueryUnit::Val(s.to_string())
}

fn var(s: &str) -> DBQueryUnit {
    DBQueryUnit::Var(s.to_string())
}

fn sample() -> Graph {
    let mut g = Graph::new();
    g.add(t("Gabe", "likes", "Rust"));
    g.add(t("Gabe", "is", "male"));
    g.add(t("James", "likes", "Java"));
    g.add(t("James", "likes", "Rust"));
    g
}

fn values_of(rc: &DBResultCollection) -> Vec<Vec<DBResultUnit>> {
    let mut rows: Vec<Vec<DBResultUnit>> = rc.results.iter().map(|r| r.values.clone()).collect();
    rows.sort_by_key(|r| format!("{:?}", r));
    rows
}

fn entry(s: &str) -> DBResultUnit {
    DBResultUnit::Val(s.to_string())
}

#[test]
fn unit_is_read_from_its_written_form() {
    assert_eq!(DBQueryUnit::from(""), DBQueryUnit::Ignore);
    assert_eq!(DBQueryUnit::from("_"), DBQueryUnit::Ignore);
    assert_eq!(DBQueryUnit::from("_anything"), DBQueryUnit::Ignore);
    assert_eq!(DBQueryUnit::from("$name"), var("name"));
    assert_eq!(DBQueryUnit::from("$"), var(""));
    assert_eq!(DBQueryUnit::from("$né"), var("né"));
    assert_eq!(DBQueryUnit::from("?"), DBQueryUnit::Anon);
    assert_eq!(DBQueryUnit::from("?who"), DBQueryUnit::Anon);
    assert_eq!(DBQueryUnit::from("Gabe"), val("Gabe"));
    assert_eq!(DBQueryUnit::from("é$"), val("é$"));
    assert_ne!(DBQueryUnit::from("name"), var("name"));
    assert_ne!(DBQueryUnit::Anon, DBQueryUnit::Ignore);
    assert_eq!(var("a").duplicate(), var("a"));
    assert_eq!(val("a").literal(), Some("a".to_string()));
    assert_eq!(var("a").literal(), None);
}

#[test]
fn query_of_one_two_and_three_units() {
    assert_eq!(DBQuery::from(&[]), DBQuery::Null);
    assert_eq!(DBQuery::from(&[val("a")]), DBQuery::Single(val("a"), TOrder::S));
    assert_eq!(DBQuery::from(&[val("a"), var("b")]), DBQuery::Double(val("a"), var("b"), [TOrder::S, TOrder::P]));
    assert_eq!(
        DBQuery::from(&[val("a"), var("b"), DBQueryUnit::Anon]),
        DBQuery::Triple(val("a"), var("b"), DBQueryUnit::Anon, [TOrder::S, TOrder::P, TOrder::O])
    );
    assert_eq!(DBQuery::from(&[val("a"), val("b"), val("c"), val("d")]), DBQuery::Null);
    assert_eq!(
        DBQuery::from_str(&["James", "$opinion", "$object"]),
        DBQuery::Triple(val("James"), var("opinion"), var("object"), [TOrder::S, TOrder::P, TOrder::O])
    );
    assert_eq!(DBQuery::from_str(&["a", "b", "c", "d"]), DBQuery::Null);
    assert_eq!(DBQuery::from_str(&[]), DBQuery::Null);
    assert_eq!(DBQuery::from_str(&["?"]), DBQuery::Single(DBQueryUnit::Anon, TOrder::S));
    assert_eq!(DBQuery::from_str(&["a", "?"]), DBQuery::Double(val("a"), DBQueryUnit::Anon, [TOrder::S, TOrder::P]));
}

#[test]
fn query_without_the_positions_left_out() {
    let i = DBQueryUnit::Ignore;
    assert_eq!(DBQuery::from(&[i.clone()]), DBQuery::Null);
    assert_eq!(DBQuery::from(&[i.clone(), i.clone()]), DBQuery::Null);
    assert_eq!(DBQuery::from(&[i.clone(), i.clone(), i.clone()]), DBQuery::Null);
    assert_eq!(DBQuery::from(&[val("a"), i.clone()]), DBQuery::Single(val("a"), TOrder::S));
    assert_eq!(DBQuery::from(&[i.clone(), val("b")]), DBQuery::Single(val("b"), TOrder::P));
    assert_eq!(
        DBQuery::from(&[i.clone(), val("p"), val("o")]),
        DBQuery::Double(val("p"), val("o"), [TOrder::P, TOrder::O])
    );
    assert_eq!(
        DBQuery::from(&[val("s"), i.clone(), val("o")]),
        DBQuery::Double(val("o"), val("s"), [TOrder::O, TOrder::S])
    );
    assert_eq!(
        DBQuery::from(&[val("s"), val("p"), i.clone()]),
        DBQuery::Double(val("s"), val("p"), [TOrder::S, TOrder::P])
    );
    assert_eq!(DBQuery::from(&[i.clone(), i.clone(), val("o")]), DBQuery::Single(val("o"), TOrder::O));
    assert_eq!(DBQuery::from(&[i.clone(), val("p"), i.clone()]), DBQuery::Single(val("p"), TOrder::P));
    assert_eq!(DBQuery::from(&[val("s"), i.clone(), i.clone()]), DBQuery::Single(val("s"), TOrder::S));
    assert_eq!(DBQuery::from_str(&["s", "_", "o"]), DBQuery::Double(val("o"), val("s"), [TOrder::O, TOrder::S]));
    assert_eq!(
        DBQuery::Triple(val("s"), i.clone(), var("o"), [TOrder::O, TOrder::S, TOrder::P]).normalize(),
        DBQuery::Double(var("o"), val("s"), [TOrder::O, TOrder::S])
    );
    assert_eq!(DBQuery::Double(i.clone(), val("x"), [TOrder::P, TOrder::O]).normalize(), DBQuery::Single(val("x"), TOrder::O));
    assert_eq!(DBQuery::make_single(i.clone(), TOrder::S), DBQuery::Null);
    assert_eq!(DBQuery::make_double(val("a"), i.clone(), [TOrder::O, TOrder::S]), DBQuery::Single(val("a"), TOrder::O));
    assert_eq!(DBQuery::make_triple(i.clone(), i.clone(), val("c")), DBQuery::Single(val("c"), TOrder::O));
}

#[test]
fn queries_are_compared_by_units_and_ordering() {
    assert_eq!(DBQuery::Null, DBQuery::Null);
    assert_ne!(DBQuery::Null, DBQuery::Single(val("a"), TOrder::S));
    assert_ne!(DBQuery::Single(val("a"), TOrder::S), DBQuery::Single(val("a"), TOrder::P));
    assert_ne!(DBQuery::Single(val("a"), TOrder::S), DBQuery::Single(var("a"), TOrder::S));
    assert_ne!(
        DBQuery::Double(val("a"), val("b"), [TOrder::S, TOrder::P]),
        DBQuery::Double(val("a"), val("b"), [TOrder::S, TOrder::O])
    );
    assert_ne!(
        DBQuery::Triple(val("a"), val("b"), val("c"), [TOrder::S, TOrder::P, TOrder::O]),
        DBQuery::Triple(val("a"), val("b"), val("x"), [TOrder::S, TOrder::P, TOrder::O])
    );
    let q = DBQuery::from_str(&["a", "$b", "?"]);
    assert_eq!(q.duplicate(), q);
}

#[test]
fn row_binds_units_to_matched_values() {
    let mut r = DBResult::new();
    r.bind(&val("Gabe"), "ignored".to_string());
    r.bind(&var("what"), "likes".to_string());
    r.bind(&DBQueryUnit::Anon, "Rust".to_string());
    r.bind(&DBQueryUnit::Ignore, "gone".to_string());
    assert_eq!(r.values, vec![entry("Gabe"), entry("likes"), entry("Rust"), DBResultUnit::Nil]);
    assert_eq!(r.var_map, vec![("what".to_string(), 1)]);
    assert_eq!(r.get_var("what"), Some("likes".to_string()));
    assert_eq!(r.get_var("Gabe"), None);
    assert_eq!(r.get_var(""), None);
    assert_eq!(r.get_val(0), Some("Gabe".to_string()));
    assert_eq!(r.get_val(2), Some("Rust".to_string()));
    assert_eq!(r.get_val(3), None);
    assert_eq!(r.get_val(4), None);
    assert_eq!(r.duplicate(), r);
}

#[test]
fn name_given_twice_stands_for_the_later_position() {
    let mut r = DBResult::new();
    r.add_var("x".to_string(), "first".to_string());
    r.add_anon(DBResultUnit::Nil);
    r.add_var("x".to_string(), "second".to_string());
    assert_eq!(r.get_var("x"), Some("second".to_string()));
    let odd = DBResult { values: vec![DBResultUnit::Nil], var_map: vec![("a".to_string(), 0), ("b".to_string(), 7)] };
    assert_eq!(odd.get_var("a"), None);
    assert_eq!(odd.get_var("b"), None);
}

#[test]
fn rows_are_handed_out_in_order() {
    let mut r = DBResult::new();
    r.add_val(entry("a"));
    r.add_val(DBResultUnit::Nil);
    let mut it = r.iter();
    assert_eq!(it.next(), Some(entry("a")));
    assert_eq!(it.next(), Some(DBResultUnit::Nil));
    assert_eq!(it.next(), None);
    assert_eq!(it.next(), None);
    let mut owned = r.clone().into_iter();
    assert_eq!(owned.next(), Some(entry("a")));
    let rc = DBResultCollection::from(DBQuery::Null, vec![r.clone(), DBResult::new()]);
    let mut rows = rc.iter();
    assert_eq!(rows.next(), Some(r.clone()));
    assert_eq!(rows.next(), Some(DBResult::new()));
    assert_eq!(rows.next(), None);
    let mut owned_rows = rc.clone().into_iter();
    assert_eq!(owned_rows.next(), Some(r));
    let none = DBResultCollection::new();
    assert_eq!(none.query, DBQuery::Null);
    assert_eq!(none.iter().next(), None);
    assert_eq!(entry("a").duplicate(), entry("a"));
}

#[test]
fn bound_rows_follow_the_units() {
    let units = vec![val("Gabe"), var("p"), var("o")];
    let row = bind_row(&units, &vec!["x".to_string(), "likes".to_string(), "Rust".to_string()]);
    assert_eq!(row.values, vec![entry("Gabe"), entry("likes"), entry("Rust")]);
    assert_eq!(row.get_var("p"), Some("likes".to_string()));
    assert_eq!(row.get_var("o"), Some("Rust".to_string()));
    assert_eq!(row.get_var("s"), None);
    let rows = bind_rows(&vec![var("a")], &vec![vec!["1".to_string()], vec!["2".to_string()]]);
    assert_eq!(rows.len(), 2);
    assert_eq!(rows[1].get_var("a"), Some("2".to_string()));
    let same = bind_row(&vec![var("v"), var("v")], &vec!["1".to_string(), "2".to_string()]);
    assert_eq!(same.get_var("v"), Some("2".to_string()));
}

#[test]
fn evaluation_of_triples_doubles_and_singles() {
    let g = sample();
    let rc = g.get_trial(DBQuery::from_str(&["$who", "likes", "Rust"]));
    assert_eq!(rc.query, DBQuery::Triple(var("who"), val("likes"), val("Rust"), [TOrder::S, TOrder::P, TOrder::O]));
    assert_eq!(
        values_of(&rc),
        vec![vec![entry("Gabe"), entry("likes"), entry("Rust")], vec![entry("James"), entry("likes"), entry("Rust")]]
    );
    let rc = g.get_trial(DBQuery::from_str(&["James", "_", "$what"]));
    assert_eq!(rc.query, DBQuery::Double(var("what"), val("James"), [TOrder::O, TOrder::S]));
    assert_eq!(values_of(&rc), vec![vec![entry("Java"), entry("James")], vec![entry("Rust"), entry("James")]]);
    let rc = g.get_trial(DBQuery::from_str(&["_", "?", "Rust"]));
    assert_eq!(values_of(&rc), vec![vec![entry("likes"), entry("Rust")]]);
    let rc = g.get_trial(DBQuery::from_str(&["$s", "$p"]));
    assert_eq!(
        values_of(&rc),
        vec![vec![entry("Gabe"), entry("is")], vec![entry("Gabe"), entry("likes")], vec![entry("James"), entry("likes")]]
    );
    let rc = g.get_trial(DBQuery::from_str(&["_", "_", "$o"]));
    assert_eq!(rc.query, DBQuery::Single(var("o"), TOrder::O));
    assert_eq!(values_of(&rc), vec![vec![entry("Java")], vec![entry("Rust")], vec![entry("male")]]);
    let rc = g.get_trial(DBQuery::from_str(&["_", "$p", "_"]));
    assert_eq!(values_of(&rc), vec![vec![entry("is")], vec![entry("likes")]]);
    let rc = g.get_trial(DBQuery::from_str(&["Gabe"]));
    assert_eq!(values_of(&rc), vec![vec![entry("Gabe")]]);
    let rc = g.get_trial(DBQuery::from_str(&["Java"]));
    assert_eq!(rc.results.len(), 0);
    let rc = g.get_trial(DBQuery::Null);
    assert_eq!(rc.results.len(), 0);
    let rc = g.get_trial(DBQuery::from_str(&["nobody", "$p", "$o"]));
    assert_eq!(rc.results.len(), 0);
}

#[test]
fn evaluation_answers_only_orderings_that_a_rotation_leads_with() {
    let g = sample();
    let rc = g.get_trial(DBQuery::Double(var("a"), var("b"), [TOrder::P, TOrder::S]));
    assert_eq!(rc.results.len(), 0);
    let rc = g.get_trial(DBQuery::Single(var("a"), TOrder::SPO));
    assert_eq!(rc.results.len(), 0);
    let pair = |a: &str, b: &str| (a.to_string(), b.to_string());
    assert_eq!(
        g.get_double(&(Some("likes".to_string()), None), [TOrder::P, TOrder::O]),
        vec![pair("likes", "Rust"), pair("likes", "Java")]
    );
    assert_eq!(g.get_double(&(Some("Rust".to_string()), None), [TOrder::O, TOrder::S]).len(), 2);
    assert_eq!(g.get_double(&(Some("Gabe".to_string()), None), [TOrder::S, TOrder::P]).len(), 2);
    assert_eq!(g.get_double(&(None, None), [TOrder::S, TOrder::O]), Vec::new());
    assert_eq!(g.get_single(&None, TOrder::P), vec!["likes".to_string(), "is".to_string()]);
    assert_eq!(g.get_single(&Some("male".to_string()), TOrder::O), vec!["male".to_string()]);
    assert_eq!(g.get_single(&None, TOrder::PO), Vec::<String>::new());
    let rows = g.answer(&DBQuery::Triple(val("Gabe"), DBQueryUnit::Ignore, var("o"), [TOrder::S, TOrder::P, TOrder::O]));
    assert_eq!(rows.len(), 2);
    assert_eq!(rows[0].values[1], DBResultUnit::Nil);
    assert_eq!(rows[0].get_var("o"), Some("Rust".to_string()));
}

#[test]
fn entry_is_read_from_a_text() {
    assert_eq!(DBResultUnit::from(""), DBResultUnit::Nil);
    assert_eq!(DBResultUnit::from("Gabe"), entry("Gabe"));
    assert_eq!(DBResultUnit::from("$x"), entry("$x"));
}
