//! Evaluation of structured queries: the matches of a query over one, two or
//! three positions, each bound into a row.

use vstd::prelude::*;
use crate::graph::{decoded, Graph};
use crate::path::{
    lemma_rows_of_doubles, lemma_rows_of_singles, lemma_rows_of_triples, rows_of_doubles, rows_of_singles,
    rows_of_triples, Walk,
};
use crate::queries::{Query, QueryUnit, QueryView, UnitView};
use crate::results::{Result, ResultCollection, ResultView};
use crate::triple::{as_osp, as_pos, position_matches, Double, Fact, QueryDouble, TOrder};

verus! {

/// The units of a query in the order of its positions.
pub open spec fn units_of(q: QueryView) -> Seq<UnitView> {
    match q {
        QueryView::Null => Seq::empty(),
        QueryView::Single(a, _) => seq![a],
        QueryView::Double(a, b, _) => seq![a, b],
        QueryView::Triple(a, b, c, _) => seq![a, b, c],
    }
}

/// The row that the first `n` units take from the first `n` values matched.
pub open spec fn bound_upto(units: Seq<UnitView>, matched: Walk, n: int) -> ResultView
    decreases n,
{
    if n <= 0 {
        ResultView::empty()
    } else {
        bound_upto(units, matched, n - 1).bind(units[n - 1], matched[n - 1])
    }
}

/// The row that the units take from the values matched, position by position.
pub open spec fn bound_row(units: Seq<UnitView>, matched: Walk) -> ResultView {
    bound_upto(units, matched, units.len() as int)
}

/// The rows that the units take from each list of values matched.
pub open spec fn bound_rows(units: Seq<UnitView>, matched: Seq<Walk>) -> Seq<ResultView> {
    Seq::new(matched.len(), |i: int| bound_row(units, matched[i]))
}

/// The last position below `n` at which the units declare the variable `name`.
pub open spec fn declared_at(units: Seq<UnitView>, name: Seq<char>, n: int) -> Option<int>
    decreases n,
{
    if n <= 0 {
        None
    } else if units[n - 1] == UnitView::Var(name) {
        Some(n - 1)
    } else {
        declared_at(units, name, n - 1)
    }
}

impl Graph {
    /// Whether some triple has `v` at the position that `ord` names.
    pub open spec fn has_value_at(&self, ord: TOrder, v: Seq<char>) -> bool {
        match ord {
            TOrder::S => exists|p: Seq<char>, o: Seq<char>| self@.contains((v, p, o)),
            TOrder::P => exists|s: Seq<char>, o: Seq<char>| self@.contains((s, v, o)),
            TOrder::O => exists|s: Seq<char>, p: Seq<char>| self@.contains((s, p, v)),
            _ => false,
        }
    }

    /// Whether some triple has `a` and `b` at the two positions that `ord`
    /// names. Only the pairs with which a rotation leads are answered.
    pub open spec fn has_pair_at(&self, ord: Seq<TOrder>, a: Seq<char>, b: Seq<char>) -> bool {
        if ord.len() != 2 {
            false
        } else if ord[0] == TOrder::S && ord[1] == TOrder::P {
            exists|o: Seq<char>| self@.contains((a, b, o))
        } else if ord[0] == TOrder::P && ord[1] == TOrder::O {
            exists|s: Seq<char>| self@.contains((s, a, b))
        } else if ord[0] == TOrder::O && ord[1] == TOrder::S {
            exists|p: Seq<char>| self@.contains((b, p, a))
        } else {
            false
        }
    }

    /// Whether the values `w` are a match of the query: one value for each
    /// position, equal to the unit's value where the unit is one, and found
    /// together in the graph at the positions that the query names.
    pub open spec fn is_match(&self, q: QueryView, w: Walk) -> bool {
        match q {
            QueryView::Null => false,
            QueryView::Single(a, ord) => {
                &&& w.len() == 1
                &&& position_matches(a.bound(), w[0])
                &&& self.has_value_at(ord, w[0])
            },
            QueryView::Double(a, b, ord) => {
                &&& w.len() == 2
                &&& position_matches(a.bound(), w[0])
                &&& position_matches(b.bound(), w[1])
                &&& self.has_pair_at(ord, w[0], w[1])
            },
            QueryView::Triple(s, p, o, _) => {
                &&& w.len() == 3
                &&& position_matches(s.bound(), w[0])
                &&& position_matches(p.bound(), w[1])
                &&& position_matches(o.bound(), w[2])
                &&& self@.contains((w[0], w[1], w[2]))
            },
        }
    }

    /// Whether `out` holds one row for each match of the query and no other,
    /// each row being what the query's units take from the match.
    pub open spec fn is_answer(&self, q: QueryView, out: Seq<ResultView>) -> bool {
        exists|matched: Seq<Walk>|
            {
                &&& matched.no_duplicates()
                &&& forall|w: Walk| #[trigger] matched.contains(w) <==> self.is_match(q, w)
                &&& out == #[trigger] bound_rows(units_of(q), matched)
            }
    }

    /// Lists the values found at the position `ord` that the pattern admits, each once.
    pub fn get_single(&self, q: &Option<String>, ord: TOrder) -> (r: Vec<String>)
        requires
            self.wf(),
        ensures
            r.deep_view().no_duplicates(),
            forall|v: Seq<char>| #[trigger]
                r.deep_view().contains(v) <==> position_matches(q.deep_view(), v) && self.has_value_at(ord, v),
    {
        proof {
            lemma_leading_values(*self);
        }
        match ord {
            TOrder::S => self.spo.get_single(q),
            TOrder::P => self.pos.get_single(q),
            TOrder::O => self.osp.get_single(q),
            _ => {
                let r: Vec<String> = Vec::new();
                proof {
                    assert(r.deep_view() =~= Seq::<Seq<char>>::empty());
                }
                r
            },
        }
    }

    /// Lists the pairs found at the two positions `ord` that the pattern
    /// admits, each once. An ordering with which no rotation leads has no pairs.
    pub fn get_double(&self, qd: &QueryDouble, ord: [TOrder; 2]) -> (r: Vec<Double>)
        requires
            self.wf(),
        ensures
            r.deep_view().no_duplicates(),
            forall|d: (Seq<char>, Seq<char>)| #[trigger]
                r.deep_view().contains(d) <==> position_matches(qd.0.deep_view(), d.0) && position_matches(
                    qd.1.deep_view(),
                    d.1,
                ) && self.has_pair_at(ord@, d.0, d.1),
    {
        proof {
            lemma_leading_pairs(*self);
        }
        match (ord[0], ord[1]) {
            (TOrder::S, TOrder::P) => self.spo.get_double(qd),
            (TOrder::P, TOrder::O) => self.pos.get_double(qd),
            (TOrder::O, TOrder::S) => self.osp.get_double(qd),
            _ => {
                let r: Vec<Double> = Vec::new();
                proof {
                    assert(r.deep_view() =~= Seq::<(Seq<char>, Seq<char>)>::empty());
                }
                r
            },
        }
    }

    /// Lists the matches of a query as it stands, each once.
    fn matches_of(&self, q: &Query) -> (r: Vec<Vec<String>>)
        requires
            self.wf(),
        ensures
            r.deep_view().no_duplicates(),
            forall|w: Walk| #[trigger] r.deep_view().contains(w) <==> self.is_match(q@, w),
    {
        match q {
            Query::Null => {
                let r: Vec<Vec<String>> = Vec::new();
                proof {
                    assert(r.deep_view() =~= Seq::<Walk>::empty());
                }
                r
            },
            Query::Single(a, ord) => {
                let found = self.get_single(&a.literal(), *ord);
                let r = rows_of_singles(&found);
                proof {
                    lemma_rows_of_singles(found.deep_view());
                }
                r
            },
            Query::Double(a, b, ord) => {
                let found = self.get_double(&(a.literal(), b.literal()), *ord);
                let r = rows_of_doubles(&found);
                proof {
                    lemma_rows_of_doubles(found.deep_view());
                }
                r
            },
            Query::Triple(s, p, o, _) => {
                let found = self.get_triple(&(s.literal(), p.literal(), o.literal()));
                let r = rows_of_triples(&found);
                proof {
                    lemma_rows_of_triples(found.deep_view());
                }
                r
            },
        }
    }

    /// Answers a query as it stands: one row for each match. A position that
    /// the query leaves out is open in the lookup and takes the mark in the row.
    pub fn answer(&self, q: &Query) -> (r: Vec<Result>)
        requires
            self.wf(),
        ensures
            self.is_answer(q@, r.deep_view()),
    {
        let matched = self.matches_of(q);
        let units = units_vec(q);
        proof {
            assert forall|i: int| 0 <= i < matched@.len() implies (#[trigger] matched@[i])@.len() == units@.len() by {
                let w = matched.deep_view()[i];
                assert(matched.deep_view().contains(w));
                assert(w.len() == matched@[i]@.len());
                assert(units.deep_view().len() == units@.len());
            }
        }
        let r = bind_rows(&units, &matched);
        proof {
            assert(r.deep_view() == bound_rows(units_of(q@), matched.deep_view()));
        }
        r
    }

    /// Evaluates a structured query. Positions that the query leaves out are
    /// taken away first; the rows are those of the query that remains, which
    /// is handed back with them.
    pub fn get_trial(&self, q: Query) -> (rc: ResultCollection)
        requires
            self.wf(),
        ensures
            rc.query@ == q@.normalized(),
            self.is_answer(q@.normalized(), rc.rows()),
    {
        let nq = q.normalize();
        let rows = self.answer(&nq);
        ResultCollection::from(nq, rows)
    }
}

/// The units of a query in the order of its positions.
fn units_vec(q: &Query) -> (r: Vec<QueryUnit>)
    ensures
        r.deep_view() == units_of(q@),
{
    let mut r: Vec<QueryUnit> = Vec::new();
    match q {
        Query::Null => {},
        Query::Single(a, _) => {
            r.push(a.duplicate());
        },
        Query::Double(a, b, _) => {
            r.push(a.duplicate());
            r.push(b.duplicate());
        },
        Query::Triple(a, b, c, _) => {
            r.push(a.duplicate());
            r.push(b.duplicate());
            r.push(c.duplicate());
        },
    }
    proof {
        assert(r.deep_view() =~= units_of(q@));
    }
    r
}

/// Binds one list of matched values into a row, unit by unit.
pub fn bind_row(units: &Vec<QueryUnit>, matched: &Vec<String>) -> (r: Result)
    requires
        units@.len() == matched@.len(),
    ensures
        r@ == bound_row(units.deep_view(), matched.deep_view()),
{
    let mut r = Result::new();
    let mut n: usize = 0;
    while n < units.len()
        invariant
            n <= units@.len() == matched@.len(),
            r@ == bound_upto(units.deep_view(), matched.deep_view(), n as int),
        decreases units@.len() - n,
    {
        r.bind(&units[n], matched[n].clone());
        n += 1;
    }
    r
}

/// Binds every list of matched values into a row.
pub fn bind_rows(units: &Vec<QueryUnit>, matched: &Vec<Vec<String>>) -> (r: Vec<Result>)
    requires
        forall|i: int| 0 <= i < matched@.len() ==> (#[trigger] matched@[i])@.len() == units@.len(),
    ensures
        r.deep_view() == bound_rows(units.deep_view(), matched.deep_view()),
{
    let mut r: Vec<Result> = Vec::new();
    let mut i: usize = 0;
    while i < matched.len()
        invariant
            i <= matched@.len(),
            forall|i: int| 0 <= i < matched@.len() ==> (#[trigger] matched@[i])@.len() == units@.len(),
            r.deep_view() =~= bound_rows(units.deep_view(), matched.deep_view().take(i as int)),
        decreases matched@.len() - i,
    {
        let ghost prev = r.deep_view();
        let row = bind_row(units, &matched[i]);
        r.push(row);
        proof {
            assert(r.deep_view() =~= prev.push(bound_row(units.deep_view(), matched.deep_view()[i as int])));
        }
        i += 1;
    }
    proof {
        assert(matched.deep_view().take(i as int) =~= matched.deep_view());
    }
    r
}

/// What the heads of each rotation are, said of the graph's triples.
proof fn lemma_leading_values(g: Graph)
    requires
        g.wf(),
    ensures
        forall|v: Seq<char>| #[trigger] g.spo.has_head(v) <==> g.has_value_at(TOrder::S, v),
        forall|v: Seq<char>| #[trigger] g.pos.has_head(v) <==> g.has_value_at(TOrder::P, v),
        forall|v: Seq<char>| #[trigger] g.osp.has_head(v) <==> g.has_value_at(TOrder::O, v),
{
    assert(decoded(g.pos@, TOrder::POS) == g.spo@);
    assert(decoded(g.osp@, TOrder::OSP) == g.spo@);
    assert forall|v: Seq<char>| #[trigger] g.spo.has_head(v) <==> g.has_value_at(TOrder::S, v) by {
        if g.spo.has_head(v) {
            let (m, t) = choose|m: Seq<char>, t: Seq<char>| g.spo@.contains((v, m, t));
            assert(g@.contains((v, m, t)));
        }
        if g.has_value_at(TOrder::S, v) {
            let (p, o) = choose|p: Seq<char>, o: Seq<char>| g@.contains((v, p, o));
            assert(g.spo@.contains((v, p, o)));
        }
    }
    assert forall|v: Seq<char>| #[trigger] g.pos.has_head(v) <==> g.has_value_at(TOrder::P, v) by {
        if g.pos.has_head(v) {
            let (m, t) = choose|m: Seq<char>, t: Seq<char>| g.pos@.contains((v, m, t));
            let f: Fact = (t, v, m);
            assert(as_pos(f) == (v, m, t));
            assert(decoded(g.pos@, TOrder::POS).contains(f));
            assert(g@.contains((t, v, m)));
        }
        if g.has_value_at(TOrder::P, v) {
            let (s, o) = choose|s: Seq<char>, o: Seq<char>| g@.contains((s, v, o));
            let f: Fact = (s, v, o);
            assert(decoded(g.pos@, TOrder::POS).contains(f));
            assert(g.pos@.contains((v, o, s)));
        }
    }
    assert forall|v: Seq<char>| #[trigger] g.osp.has_head(v) <==> g.has_value_at(TOrder::O, v) by {
        if g.osp.has_head(v) {
            let (m, t) = choose|m: Seq<char>, t: Seq<char>| g.osp@.contains((v, m, t));
            let f: Fact = (m, t, v);
            assert(as_osp(f) == (v, m, t));
            assert(decoded(g.osp@, TOrder::OSP).contains(f));
            assert(g@.contains((m, t, v)));
        }
        if g.has_value_at(TOrder::O, v) {
            let (s, p) = choose|s: Seq<char>, p: Seq<char>| g@.contains((s, p, v));
            let f: Fact = (s, p, v);
            assert(decoded(g.osp@, TOrder::OSP).contains(f));
            assert(g.osp@.contains((v, s, p)));
        }
    }
}

/// What the leading pairs of each rotation are, said of the graph's triples.
proof fn lemma_leading_pairs(g: Graph)
    requires
        g.wf(),
    ensures
        forall|a: Seq<char>, b: Seq<char>| #[trigger]
            g.spo.has_pair(a, b) <==> g.has_pair_at(seq![TOrder::S, TOrder::P], a, b),
        forall|a: Seq<char>, b: Seq<char>| #[trigger]
            g.pos.has_pair(a, b) <==> g.has_pair_at(seq![TOrder::P, TOrder::O], a, b),
        forall|a: Seq<char>, b: Seq<char>| #[trigger]
            g.osp.has_pair(a, b) <==> g.has_pair_at(seq![TOrder::O, TOrder::S], a, b),
{
    assert(decoded(g.pos@, TOrder::POS) == g.spo@);
    assert(decoded(g.osp@, TOrder::OSP) == g.spo@);
    let sp = seq![TOrder::S, TOrder::P];
    assert(sp.len() == 2 && sp[0] == TOrder::S && sp[1] == TOrder::P);
    let po = seq![TOrder::P, TOrder::O];
    assert(po.len() == 2 && po[0] == TOrder::P && po[1] == TOrder::O);
    let os = seq![TOrder::O, TOrder::S];
    assert(os.len() == 2 && os[0] == TOrder::O && os[1] == TOrder::S);
    assert forall|a: Seq<char>, b: Seq<char>| #[trigger]
        g.spo.has_pair(a, b) <==> g.has_pair_at(seq![TOrder::S, TOrder::P], a, b) by {
        if g.spo.has_pair(a, b) {
            let t = choose|t: Seq<char>| g.spo@.contains((a, b, t));
            assert(g@.contains((a, b, t)));
        }
        if g.has_pair_at(seq![TOrder::S, TOrder::P], a, b) {
            let o = choose|o: Seq<char>| g@.contains((a, b, o));
            assert(g.spo@.contains((a, b, o)));
        }
    }
    assert forall|a: Seq<char>, b: Seq<char>| #[trigger]
        g.pos.has_pair(a, b) <==> g.has_pair_at(seq![TOrder::P, TOrder::O], a, b) by {
        if g.pos.has_pair(a, b) {
            let t = choose|t: Seq<char>| g.pos@.contains((a, b, t));
            let f: Fact = (t, a, b);
            assert(as_pos(f) == (a, b, t));
            assert(decoded(g.pos@, TOrder::POS).contains(f));
            assert(g@.contains((t, a, b)));
        }
        if g.has_pair_at(seq![TOrder::P, TOrder::O], a, b) {
            let s = choose|s: Seq<char>| g@.contains((s, a, b));
            let f: Fact = (s, a, b);
            assert(decoded(g.pos@, TOrder::POS).contains(f));
            assert(g.pos@.contains((a, b, s)));
        }
    }
    assert forall|a: Seq<char>, b: Seq<char>| #[trigger]
        g.osp.has_pair(a, b) <==> g.has_pair_at(seq![TOrder::O, TOrder::S], a, b) by {
        if g.osp.has_pair(a, b) {
            let t = choose|t: Seq<char>| g.osp@.contains((a, b, t));
            let f: Fact = (b, t, a);
            assert(as_osp(f) == (a, b, t));
            assert(decoded(g.osp@, TOrder::OSP).contains(f));
            assert(g@.contains((b, t, a)));
        }
        if g.has_pair_at(seq![TOrder::O, TOrder::S], a, b) {
            let p = choose|p: Seq<char>| g@.contains((b, p, a));
            let f: Fact = (b, p, a);
            assert(decoded(g.osp@, TOrder::OSP).contains(f));
            assert(g.osp@.contains((a, b, p)));
        }
    }
}

/// A row has as many entries as units were bound.
pub proof fn lemma_bound_len(units: Seq<UnitView>, matched: Walk, n: int)
    requires
        0 <= n,
    ensures
        bound_upto(units, matched, n).values.len() == n,
    decreases n,
{
    if n > 0 {
        lemma_bound_len(units, matched, n - 1);
    }
}

/// In a bound row a variable's name gives the value matched at the position
/// where the query declared it, at the last such position where it declared
/// the name more than once; a name that the query did not declare gives nothing.
pub proof fn lemma_bound_lookup(units: Seq<UnitView>, matched: Walk, name: Seq<char>, n: int)
    requires
        0 <= n <= units.len(),
        n <= usize::MAX,
    ensures
        bound_upto(units, matched, n).lookup(name) == match declared_at(units, name, n) {
            Some(k) => Some(matched[k]),
            None => None,
        },
        declared_at(units, name, n) matches Some(k) ==> 0 <= k < n && units[k] == UnitView::Var(name),
    decreases n,
{
    if n > 0 {
        lemma_bound_lookup(units, matched, name, n - 1);
        lemma_bound_len(units, matched, n - 1);
        let before = bound_upto(units, matched, n - 1);
        let after = bound_upto(units, matched, n);
        assert(after == before.bind(units[n - 1], matched[n - 1]));
        if before.vars.contains_key(name) {
            lemma_bound_positions(units, matched, name, n - 1);
        }
    }
}

/// Every position that a bound row keeps for a name lies within the row.
pub proof fn lemma_bound_positions(units: Seq<UnitView>, matched: Walk, name: Seq<char>, n: int)
    requires
        0 <= n <= usize::MAX,
    ensures
        bound_upto(units, matched, n).vars.contains_key(name) ==> bound_upto(units, matched, n).vars[name] < n,
        bound_upto(units, matched, n).vars.contains_key(name) <==> declared_at(units, name, n) is Some,
    decreases n,
{
    if n > 0 {
        lemma_bound_positions(units, matched, name, n - 1);
        lemma_bound_len(units, matched, n - 1);
    }
}

} // verus!
