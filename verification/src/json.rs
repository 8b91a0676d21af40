//! The JSON form of an index: an object that maps each head to an object
//! that maps each of its mids to the array of its tails. The text is read
//! and written by `serde_json`; what is done with the nested values is
//! verified here.

use std::collections::BTreeMap;
use vstd::prelude::*;
use crate::graph::Graph;
use crate::nested::{nested_cell, nested_facts, nested_holds, NestedView};
use crate::triple::{Fact, Triple};
use crate::triple_store::{head_rows, lemma_rows_of_heads, push_heads, Mids, TripleStore};

verus! {

/// The nested values of the JSON form: each head with its mids, each mid with its tails.
pub type Nested = Vec<(String, Mids)>;

/// Why a text could not be read as the JSON form of an index.
#[derive(Clone, Copy, Debug, PartialEq, Eq)]
pub enum JsonError {
    /// Bytes could not be read or written.
    Io,
    /// The text is not JSON.
    Syntax,
    /// The text is JSON of another shape.
    Data,
    /// The text ends too early.
    Eof,
}

/// The error type of `serde_json`, which is carried through and never looked into.
#[verifier::external_type_specification]
#[verifier::external_body]
pub struct ExJsonError(serde_json::Error);

/// The nested values that `serde_json::from_str` reads from a text as a map
/// of maps of arrays of strings, the keys of each map in ascending order;
/// nothing where it reports an error.
pub uninterp spec fn json_parsed(text: Seq<char>) -> Option<NestedView>;

/// The text that `serde_json::to_string` writes for nested values taken as a
/// map of maps of arrays of strings; nothing where it reports an error.
pub uninterp spec fn json_written(nested: NestedView) -> Option<Seq<char>>;

/// Calls `serde_json::from_str` for a `BTreeMap` from strings to `BTreeMap`s
/// from strings to vectors of strings, and hands the maps on as vectors of
/// pairs in the maps' own order. Nothing is claimed of the result but that
/// it is the one that the text determines.
#[verifier::external_body]
fn parse_nested(data: &str) -> (r: core::result::Result<Nested, serde_json::Error>)
    ensures
        r is Ok <==> json_parsed(data@) is Some,
        r matches Ok(v) ==> Some(v.deep_view()) == json_parsed(data@),
{
    let parsed: BTreeMap<String, BTreeMap<String, Vec<String>>> = serde_json::from_str(data)?;
    Ok(parsed.into_iter().map(|(h, mids)| (h, mids.into_iter().collect())).collect())
}

/// Calls `serde_json::to_string` on the nested values, taken as a `BTreeMap`
/// from each head to a `BTreeMap` from each of its mids to its tails.
/// Nothing is claimed of the result but that it is the one that the values determine.
#[verifier::external_body]
fn write_nested(nested: &Nested) -> (r: core::result::Result<String, serde_json::Error>)
    ensures
        r is Ok <==> json_written(nested.deep_view()) is Some,
        r matches Ok(s) ==> Some(s@) == json_written(nested.deep_view()),
{
    let object: BTreeMap<&String, BTreeMap<&String, &Vec<String>>> = nested.iter().map(
        |(h, mids)| (h, mids.iter().map(|(m, tails)| (m, tails)).collect()),
    ).collect();
    serde_json::to_string(&object)
}

/// Calls `serde_json::Error::classify` and names the category in the library's own error type.
#[verifier::external_body]
fn error_kind(e: &serde_json::Error) -> JsonError {
    match e.classify() {
        serde_json::error::Category::Io => JsonError::Io,
        serde_json::error::Category::Syntax => JsonError::Syntax,
        serde_json::error::Category::Data => JsonError::Data,
        serde_json::error::Category::Eof => JsonError::Eof,
    }
}

/// Lists the triples that nested values hold, head by head.
pub fn triples_of_nested(nested: &Nested) -> (r: Vec<Triple>)
    ensures
        r.deep_view() == head_rows(nested@),
        r.deep_view().to_set() == nested_facts(nested.deep_view()),
{
    let mut r: Vec<Triple> = Vec::new();
    proof {
        assert(r.deep_view() =~= Seq::<Fact>::empty());
    }
    push_heads(nested, &mut r);
    proof {
        assert(r.deep_view() =~= head_rows(nested@));
        lemma_nested_rows(*nested);
    }
    r
}

/// The listing of nested values, taken as an index, holds what the values hold.
proof fn lemma_nested_rows(nested: Nested)
    ensures
        head_rows(nested@).to_set() == nested_facts(nested.deep_view()),
{
    let store = TripleStore(nested);
    let n = nested.deep_view();
    lemma_rows_of_heads(store);
    assert forall|f: Fact| head_rows(nested@).to_set().contains(f) <==> nested_facts(n).contains(f) by {
        assert(store.rows().contains(f) <==> store.holds(f));
        if store.holds(f) {
            let (i, j, k) = choose|i: int, j: int, k: int| store.in_range(i, j, k) && #[trigger] store.cell(i, j, k) == f;
            assert(nested_cell(n, i, j, k) == f);
        }
        if nested_holds(n, f) {
            let (i, j, k) = choose|i: int, j: int, k: int|
                0 <= i < n.len() && 0 <= j < n[i].1.len() && 0 <= k < n[i].1[j].1.len() && #[trigger] nested_cell(
                    n,
                    i,
                    j,
                    k,
                ) == f;
            assert(store.in_range(i, j, k));
            assert(store.cell(i, j, k) == f);
        }
    }
    assert(head_rows(nested@).to_set() =~= nested_facts(n));
}

impl TripleStore {
    /// The index that holds exactly the triples of the nested values.
    pub fn from_nested(nested: &Nested) -> (r: Self)
        ensures
            r.wf(),
            r@ == nested_facts(nested.deep_view()),
    {
        let triples = triples_of_nested(nested);
        let mut r = TripleStore::new();
        let mut n: usize = 0;
        proof {
            assert(triples.deep_view().take(0).to_set() =~= Set::<Fact>::empty());
        }
        while n < triples.len()
            invariant
                n <= triples@.len(),
                r.wf(),
                r@ == triples.deep_view().take(n as int).to_set(),
            decreases triples@.len() - n,
        {
            r.add((triples[n].0.clone(), triples[n].1.clone(), triples[n].2.clone()));
            proof {
                let all = triples.deep_view();
                assert(all.take(n + 1) =~= all.take(n as int).push(all[n as int]));
                all.take(n as int).lemma_push_to_set_commute(all[n as int]);
            }
            n += 1;
        }
        proof {
            assert(triples.deep_view().take(n as int) =~= triples.deep_view());
        }
        r
    }

    /// The JSON form of the index.
    pub fn json(&self) -> (r: core::result::Result<String, JsonError>)
        ensures
            r is Ok <==> json_written(self.0.deep_view()) is Some,
            r matches Ok(s) ==> Some(s@) == json_written(self.0.deep_view()),
    {
        match write_nested(&self.0) {
            Ok(s) => Ok(s),
            Err(e) => Err(error_kind(&e)),
        }
    }

    /// The index that a JSON form stands for.
    pub fn from_json(data: &str) -> (r: core::result::Result<Self, JsonError>)
        ensures
            match json_parsed(data@) {
                Some(n) => r is Ok && r->Ok_0.wf() && r->Ok_0@ == nested_facts(n),
                None => r is Err,
            },
    {
        match parse_nested(data) {
            Ok(nested) => Ok(Self::from_nested(&nested)),
            Err(e) => Err(error_kind(&e)),
        }
    }
}

impl Graph {
    /// The graph that holds exactly the triples of the nested values, read as
    /// subject, predicate, objects.
    pub fn from_nested(nested: &Nested) -> (r: Self)
        ensures
            r.wf(),
            r@ == nested_facts(nested.deep_view()),
    {
        Graph::from(triples_of_nested(nested))
    }

    /// The JSON form of the graph: that of its subject-first index.
    pub fn json(&self) -> (r: core::result::Result<String, JsonError>)
        ensures
            r is Ok <==> json_written(self.spo.0.deep_view()) is Some,
            r matches Ok(s) ==> Some(s@) == json_written(self.spo.0.deep_view()),
    {
        self.spo.json()
    }

    /// The JSON form of the graph, which is given up.
    pub fn into_json(self) -> (r: core::result::Result<String, JsonError>)
        ensures
            r is Ok <==> json_written(self.spo.0.deep_view()) is Some,
            r matches Ok(s) ==> Some(s@) == json_written(self.spo.0.deep_view()),
    {
        self.spo.json()
    }

    /// The graph that a JSON form stands for, with all three rotations built from it.
    pub fn from_json(data: &str) -> (r: core::result::Result<Self, JsonError>)
        ensures
            match json_parsed(data@) {
                Some(n) => r is Ok && r->Ok_0.wf() && r->Ok_0@ == nested_facts(n),
                None => r is Err,
            },
    {
        match parse_nested(data) {
            Ok(nested) => Ok(Self::from_nested(&nested)),
            Err(e) => Err(error_kind(&e)),
        }
    }

    /// Stores every triple of a JSON form. A text that cannot be read changes nothing.
    pub fn insert_json(&mut self, data: &str) -> (r: core::result::Result<(), JsonError>)
        requires
            old(self).wf(),
        ensures
            final(self).wf(),
            match json_parsed(data@) {
                Some(n) => r is Ok && final(self)@ == old(self)@.union(nested_facts(n)),
                None => r is Err && *final(self) == *old(self),
            },
    {
        match parse_nested(data) {
            Ok(nested) => {
                let triples = triples_of_nested(&nested);
                self.insert_all(&triples);
                Ok(())
            },
            Err(e) => Err(error_kind(&e)),
        }
    }

    /// Removes every triple of a JSON form. A text that cannot be read changes nothing.
    pub fn remove_json(&mut self, data: &str) -> (r: core::result::Result<(), JsonError>)
        requires
            old(self).wf(),
        ensures
            final(self).wf(),
            match json_parsed(data@) {
                Some(n) => r is Ok && final(self)@ == old(self)@.difference(nested_facts(n)),
                None => r is Err && *final(self) == *old(self),
            },
    {
        match parse_nested(data) {
            Ok(nested) => {
                let triples = triples_of_nested(&nested);
                self.remove_all(&triples);
                Ok(())
            },
            Err(e) => Err(error_kind(&e)),
        }
    }
}

} // verus!
