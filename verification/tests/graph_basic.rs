use oji::{Graph, TripleStore};

#[test]
fn create_graph() {
    let g = Graph::new();
    let expected_g = Graph {
        spo: TripleStore::new(),
        pos: TripleStore::new(),
        osp: TripleStore::new(),
    };
    assert_eq!(g, expected_g);
}

#[test]
fn insert_triples() {
    let mut g = Graph::new();
    g.add(("Gabe".into(), "likes".into(), "Rust".into()));
    g.add(("Gabe".into(), "likes".into(), "C++".into()));
    g.add(("Gabe".into(), "likes".into(), "Scala".into()));
    g.add(("Matt".into(), "likes".into(), "JS".into()));
    g.add(("James".into(), "likes".into(), "Java".into()));
    g.add(("James".into(), "likes".into(), "C#".into()));
    g.add(("Gabe".into(), "likes".into(), "James".into()));
    let empty_g = Graph {
        spo: TripleStore::new(),
        pos: TripleStore::new(),
        osp: TripleStore::new(),
    };
    assert_ne!(g, empty_g);
}

#[test]
fn insert_dupes_across_triplestores() {
    let mut g = Graph::new();
    let s = String::from("Gabe");
    let p = String::from("likes");
    let o = String::from("Rust");
    g.add((s.clone(), p.clone(), o.clone()));
    let spo = g.spo.get_triple(&(Some(s.clone()), Some(p.clone()), Some(o.clone())));
    let pos = g.pos.get_triple(&(Some(p.clone()), Some(o.clone()), Some(s.clone())));
    let osp = g.osp.get_triple(&(Some(o.clone()), Some(s.clone()), Some(p.clone())));
    assert_eq!(vec![(s.clone(), p.clone(), o.clone())], spo);
    assert_eq!(vec![(p.clone(), o.clone(), s.clone())], pos);
    assert_eq!(vec![(s.clone(), p.clone(), o.clone())], spo);
    assert_eq!(vec![(o.clone(), s.clone(), p.clone())], osp);
}

#[test]
fn insert_then_remove() {
    let mut g = Graph::new();
    let t: (String, String, String) = ("Gabe".into(), "likes".into(), "Rust".into());
    g.add(t.clone());
    g.erase(&t);
    let empty_g = Graph {
        spo: TripleStore::new(),
        pos: TripleStore::new(),
        osp: TripleStore::new(),
    };
    assert_eq!(g, empty_g);
}

#[test]
fn remove_the_correct_triple() {
    let mut g = Graph::new();
    g.add(("Gabe".into(), "is".into(), "male".into()));
    let t: (String, String, String) = ("Gabe".into(), "likes".into(), "Rust".into());
    g.add(t.clone());
    g.erase(&t);
    let mut expected_g = Graph::new();
    expected_g.add(("Gabe".into(), "is".into(), "male".into()));
    assert_eq!(g, expected_g);
}

#[test]
fn replace_triple() {
    let mut g = Graph::new();
    let old_t: (String, String, String) = ("Gabe".into(), "is".into(), "male".into());
    let new_t: (String, String, String) = ("Gabe".into(), "likes".into(), "Rust".into());
    g.add(old_t.clone());
    g.replace(&old_t, new_t.clone());
    let mut expected_g = Graph::new();
    expected_g.add(new_t.clone());
    assert_eq!(g, expected_g);
}

#[test]
fn iterator() {
    let mut g = Graph::new();
    let triples = vec![
        (String::from("Gabe"), String::from("likes"), String::from("Rust")),
        (String::from("Gabe"), String::from("likes"), String::from("C++")),
        (String::from("Gabe"), String::from("is"), String::from("male")),
    ];
    for triple in &triples {
        g.add(triple.clone());
    }
    let mut iter = g.iter();
    assert_ne!(iter.next(), None);
    assert_ne!(iter.next(), None);
    assert_ne!(iter.next(), None);
    assert_eq!(iter.next(), None);
}
