use oji::{t_order, Graph, TOrder, TripleStore};

fn t(s: &str, p: &str, o: &str) -> (String, String, String) {
    (s.to_string(), p.to_string(), o.to_string())
}

fn some(s: &str) -> Option<String> {
    Some(s.to_string())
}

fn sorted<T: Ord>(mut v: Vec<T>) -> Vec<T> {
    v.sort();
    v
}

fn sample() -> Graph {
    let mut g = Graph::new();
    g.add(t("Gabe", "likes", "Rust"));
    g.add(t("Gabe", "likes", "C++"));
    g.add(t("Gabe", "is", "male"));
    g.add(t("James", "likes", "Java"));
    g.add(t("James", "is", "cool"));
    g.add(t("Rust", "is", "fast"));
    g
}

fn all_of(g: &Graph) -> Vec<(String, String, String)> {
    vec![
        t("Gabe", "likes", "Rust"),
        t("Gabe", "likes", "C++"),
        t("Gabe", "is", "male"),
        t("James", "likes", "Java"),
        t("James", "is", "cool"),
        t("Rust", "is", "fast"),
    ]
    .into_iter()
    .filter(|x| !g.get_triple(&(Some(x.0.clone()), Some(x.1.clone()), Some(x.2.clone()))).is_empty())
    .collect()
}

fn decode(store: &TripleStore, ord: &TOrder) -> Vec<(String, String, String)> {
    sorted(store.get_triple(&(None, None, None)).into_iter().map(|x| t_order(x, ord)).collect())
}

#[test]
fn index_keeps_heads_mids_and_tails_in_order_of_arrival() {
    let mut s = TripleStore::new();
    s.add(t("a", "b", "c"));
    s.add(t("a", "b", "d"));
    s.add(t("a", "e", "f"));
    s.add(t("g", "h", "i"));
    let expected = TripleStore(vec![
        (
            "a".to_string(),
            vec![
                ("b".to_string(), vec!["c".to_string(), "d".to_string()]),
                ("e".to_string(), vec!["f".to_string()]),
            ],
        ),
        ("g".to_string(), vec![("h".to_string(), vec!["i".to_string()])]),
    ]);
    assert_eq!(s, expected);
}

#[test]
fn index_add_is_idempotent() {
    let mut s = TripleStore::new();
    s.add(t("a", "b", "c"));
    let once = s.clone();
    s.add(t("a", "b", "c"));
    assert_eq!(s, once);
}

#[test]
fn index_erase_cleans_up_empty_mids_and_heads() {
    let mut s = TripleStore::new();
    s.add(t("a", "b", "c"));
    s.add(t("a", "b", "d"));
    s.add(t("a", "e", "f"));
    s.erase(&t("a", "b", "c"));
    assert_eq!(
        s,
        TripleStore(vec![(
            "a".to_string(),
            vec![("b".to_string(), vec!["d".to_string()]), ("e".to_string(), vec!["f".to_string()])],
        )])
    );
    s.erase(&t("a", "b", "d"));
    assert_eq!(s, TripleStore(vec![("a".to_string(), vec![("e".to_string(), vec!["f".to_string()])])]));
    s.erase(&t("a", "e", "f"));
    assert_eq!(s, TripleStore::new());
}

#[test]
fn index_erase_of_absent_triple_changes_nothing() {
    let mut s = TripleStore::new();
    s.add(t("a", "b", "c"));
    let before = s.clone();
    s.erase(&t("a", "b", "x"));
    s.erase(&t("a", "x", "c"));
    s.erase(&t("x", "b", "c"));
    assert_eq!(s, before);
}

#[test]
fn index_lookup_by_leading_positions() {
    let mut s = TripleStore::new();
    s.add(t("a", "b", "c"));
    s.add(t("a", "b", "d"));
    s.add(t("a", "e", "f"));
    s.add(t("g", "h", "i"));
    assert_eq!(s.get_triple(&(some("a"), some("b"), some("d"))), vec![t("a", "b", "d")]);
    assert_eq!(s.get_triple(&(some("a"), some("b"), some("x"))), Vec::new());
    assert_eq!(s.get_triple(&(some("a"), some("b"), None)), vec![t("a", "b", "c"), t("a", "b", "d")]);
    assert_eq!(
        s.get_triple(&(some("a"), None, None)),
        vec![t("a", "b", "c"), t("a", "b", "d"), t("a", "e", "f")]
    );
    assert_eq!(
        s.get_triple(&(None, None, None)),
        vec![t("a", "b", "c"), t("a", "b", "d"), t("a", "e", "f"), t("g", "h", "i")]
    );
    assert_eq!(s.get_triple(&(some("x"), None, None)), Vec::new());
    assert_eq!(s.get_triple(&(some("a"), some("x"), None)), Vec::new());
}

#[test]
fn index_does_not_answer_gapped_patterns() {
    let mut s = TripleStore::new();
    s.add(t("a", "b", "c"));
    assert_eq!(s.get_triple(&(None, some("b"), None)), Vec::new());
    assert_eq!(s.get_triple(&(None, None, some("c"))), Vec::new());
    assert_eq!(s.get_triple(&(some("a"), None, some("c"))), Vec::new());
    assert_eq!(s.get_triple(&(None, some("b"), some("c"))), Vec::new());
}

#[test]
fn index_lists_heads_and_pairs_once() {
    let mut s = TripleStore::new();
    s.add(t("a", "b", "c"));
    s.add(t("a", "b", "d"));
    s.add(t("a", "e", "f"));
    s.add(t("g", "b", "i"));
    assert_eq!(s.get_single(&None), vec!["a".to_string(), "g".to_string()]);
    assert_eq!(s.get_single(&some("g")), vec!["g".to_string()]);
    assert_eq!(s.get_single(&some("x")), Vec::<String>::new());
    let pair = |h: &str, m: &str| (h.to_string(), m.to_string());
    assert_eq!(s.get_double(&(None, None)), vec![pair("a", "b"), pair("a", "e"), pair("g", "b")]);
    assert_eq!(s.get_double(&(some("a"), None)), vec![pair("a", "b"), pair("a", "e")]);
    assert_eq!(s.get_double(&(None, some("b"))), vec![pair("a", "b"), pair("g", "b")]);
    assert_eq!(s.get_double(&(some("a"), some("e"))), vec![pair("a", "e")]);
    assert_eq!(s.get_double(&(some("a"), some("x"))), Vec::new());
}

#[test]
fn index_replace_and_get_ordered() {
    let mut s = TripleStore::new();
    s.add(t("likes", "Rust", "Gabe"));
    s.replace(&t("likes", "Rust", "Gabe"), t("likes", "Scala", "Gabe"));
    assert_eq!(s.get_triple(&(None, None, None)), vec![t("likes", "Scala", "Gabe")]);
    assert_eq!(
        s.get_ordered(&(some("likes"), None, None), &TOrder::POS),
        vec![t("Gabe", "likes", "Scala")]
    );
    assert_eq!(s.get_ordered(&(some("likes"), None, None), &TOrder::SPO), vec![t("likes", "Scala", "Gabe")]);
}

#[test]
fn t_order_puts_rotations_back() {
    assert_eq!(t_order(t("p", "o", "s"), &TOrder::POS), t("s", "p", "o"));
    assert_eq!(t_order(t("o", "s", "p"), &TOrder::OSP), t("s", "p", "o"));
    assert_eq!(t_order(t("s", "p", "o"), &TOrder::SPO), t("s", "p", "o"));
    assert_eq!(t_order(t("s", "p", "o"), &TOrder::SP), t("s", "p", "o"));
}

#[test]
fn rotations_agree_after_every_change() {
    let mut g = Graph::new();
    let changes: Vec<(bool, (String, String, String))> = vec![
        (true, t("Gabe", "likes", "Rust")),
        (true, t("Gabe", "likes", "C++")),
        (true, t("James", "likes", "Rust")),
        (false, t("Gabe", "likes", "Rust")),
        (true, t("Rust", "is", "fast")),
        (false, t("nobody", "likes", "Rust")),
        (false, t("James", "likes", "Rust")),
        (true, t("Gabe", "likes", "C++")),
        (false, t("Gabe", "likes", "C++")),
        (false, t("Rust", "is", "fast")),
    ];
    for (insert, triple) in changes {
        if insert {
            g.add(triple);
        } else {
            g.erase(&triple);
        }
        let spo = decode(&g.spo, &TOrder::SPO);
        assert_eq!(decode(&g.pos, &TOrder::POS), spo);
        assert_eq!(decode(&g.osp, &TOrder::OSP), spo);
    }
    assert_eq!(g, Graph::new());
}

#[test]
fn insert_twice_changes_nothing() {
    let mut g = sample();
    let before = g.clone();
    g.add(t("Gabe", "is", "male"));
    assert_eq!(g, before);
    g.insert(t("Rust", "is", "fast"));
    assert_eq!(g, before);
}

#[test]
fn erase_undoes_insert() {
    let mut g = sample();
    let before = g.clone();
    g.add(t("Gabe", "likes", "Scala"));
    assert_ne!(g, before);
    g.erase(&t("Gabe", "likes", "Scala"));
    assert_eq!(g, before);
    g.insert(t("Matt", "likes", "JS"));
    g.remove(&t("Matt", "likes", "JS"));
    assert_eq!(g, before);
}

#[test]
fn query_answers_every_combination_of_bound_positions() {
    let g = sample();
    let all = all_of(&g);
    assert_eq!(all.len(), 6);
    let subjects = [None, some("Gabe"), some("James"), some("nobody")];
    let predicates = [None, some("likes"), some("is"), some("hates")];
    let objects = [None, some("Rust"), some("cool"), some("fast"), some("nothing")];
    for s in subjects.iter() {
        for p in predicates.iter() {
            for o in objects.iter() {
                let expected: Vec<(String, String, String)> = all
                    .iter()
                    .filter(|x| {
                        s.as_ref().map_or(true, |v| *v == x.0)
                            && p.as_ref().map_or(true, |v| *v == x.1)
                            && o.as_ref().map_or(true, |v| *v == x.2)
                    })
                    .cloned()
                    .collect();
                let found = g.get_triple(&(s.clone(), p.clone(), o.clone()));
                assert_eq!(sorted(found), sorted(expected));
            }
        }
    }
}

#[test]
fn graph_from_and_replace() {
    let mut g = Graph::from(vec![t("Gabe", "is", "male"), t("Gabe", "is", "male"), t("Gabe", "likes", "Rust")]);
    assert_eq!(g.get_triple(&(None, None, None)), vec![t("Gabe", "is", "male"), t("Gabe", "likes", "Rust")]);
    g.replace(&t("Gabe", "is", "male"), t("Gabe", "is", "cool"));
    assert_eq!(sorted(g.get_triple(&(None, None, None))), vec![t("Gabe", "is", "cool"), t("Gabe", "likes", "Rust")]);
    g.insert_all(&vec![t("a", "b", "c"), t("Gabe", "is", "cool")]);
    assert_eq!(g.get_triple(&(None, None, None)).len(), 3);
    g.remove_all(&vec![t("a", "b", "c"), t("x", "y", "z")]);
    assert_eq!(g.get_triple(&(None, None, None)).len(), 2);
}

#[test]
fn iteration_lists_every_triple_once_and_can_start_again() {
    let g = sample();
    let mut seen = Vec::new();
    let mut iter = g.iter();
    while let Some(x) = iter.next() {
        seen.push(x);
    }
    assert_eq!(iter.next(), None);
    assert_eq!(seen, g.get_triple(&(None, None, None)));
    assert_eq!(sorted(seen.clone()), sorted(all_of(&g)));
    let mut again = g.ref_iter();
    assert_eq!(again.next(), Some(seen[0].clone()));
    assert_eq!(again.next(), Some(seen[1].clone()));
    let mut owned = g.clone().into_iter();
    let mut count = 0;
    while let Some(_) = owned.next() {
        count += 1;
    }
    assert_eq!(count, 6);
    let mut store_iter = g.pos.iter();
    assert_eq!(store_iter.next(), Some(t("likes", "Rust", "Gabe")));
    let mut none = Graph::new().into_iter();
    assert_eq!(none.next(), None);
    let mut store_owned = g.osp.clone().into_iter();
    assert_eq!(store_owned.next(), Some(t("Rust", "Gabe", "likes")));
}
