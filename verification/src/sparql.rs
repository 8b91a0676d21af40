//! A builder for queries in the style of SELECT ... WHERE: the graph to ask,
//! the variables that are declared, and the triple conditions that use them.

use vstd::prelude::*;
use crate::graph::Graph;
use crate::queries::{unit_of, written_units, QueryUnit, QueryView, UnitView};
use crate::results::{ResultCollection, ResultView};
use crate::triple::TOrder;

verus! {

/// Why a query could not be put together.
#[derive(Clone, Debug, PartialEq)]
pub enum QueryError {
    /// A condition uses a variable of this name, which was not declared.
    UndeclaredVariable(String),
}

/// A query that is ready to be run: its graph, its declared variables and its conditions.
#[derive(Clone, Debug)]
pub struct Query<'a> {
    pub graph: &'a Graph,
    pub vars: Vec<QueryUnit>,
    pub conds: Vec<[QueryUnit; 3]>,
}

/// A query that is being put together.
pub struct QueryBuilder<'a> {
    pub graph: Option<&'a Graph>,
    pub vars: Option<Vec<QueryUnit>>,
    pub conds: Option<Vec<[QueryUnit; 3]>>,
}

/// The conditions that written triples stand for, in order.
pub open spec fn conds_written(conds: Seq<[&str; 3]>) -> Seq<Seq<UnitView>> {
    Seq::new(conds.len(), |i: int| written_units(conds[i]@))
}

/// Whether the unit is a variable that the declared units do not hold.
pub open spec fn is_undeclared(declared: Seq<UnitView>, unit: UnitView) -> bool {
    unit is Var && !declared.contains(unit)
}

/// The first unit, condition by condition and position by position, that is
/// an undeclared variable.
pub open spec fn first_undeclared(declared: Seq<UnitView>, conds: Seq<Seq<UnitView>>) -> Option<UnitView>
    decreases conds.len(),
{
    if conds.len() == 0 {
        None
    } else {
        match first_undeclared(declared, conds.drop_last()) {
            Some(u) => Some(u),
            None => {
                let c = conds.last();
                if is_undeclared(declared, c[0]) {
                    Some(c[0])
                } else if is_undeclared(declared, c[1]) {
                    Some(c[1])
                } else if is_undeclared(declared, c[2]) {
                    Some(c[2])
                } else {
                    None
                }
            },
        }
    }
}

/// The query that one condition is when it is run as it stands.
pub open spec fn cond_query(c: Seq<UnitView>) -> QueryView {
    QueryView::Triple(c[0], c[1], c[2], seq![TOrder::S, TOrder::P, TOrder::O])
}

impl<'a> Query<'a> {
    /// A builder with nothing set.
    pub fn new() -> (r: QueryBuilder<'a>)
        ensures
            r.graph is None,
            r.vars is None,
            r.conds is None,
    {
        QueryBuilder { graph: None, vars: None, conds: None }
    }

    /// Runs the first condition against the graph: one row for each triple
    /// that agrees with the condition's values, with the variables bound and
    /// the mark at each position that the condition leaves out.
    pub fn fetch(self) -> (rc: ResultCollection)
        requires
            self.graph.wf(),
            self.conds@.len() > 0,
        ensures
            rc.query@ == cond_query(self.conds.deep_view()[0]),
            self.graph.is_answer(cond_query(self.conds.deep_view()[0]), rc.rows()),
    {
        let q = cond_as_query(&self.conds[0]);
        let rows = self.graph.answer(&q);
        ResultCollection::from(q, rows)
    }

    /// Runs every condition against the graph and hands back the rows of
    /// all of them, condition after condition, with the first condition's query.
    pub fn fetch_2(self) -> (rc: ResultCollection)
        requires
            self.graph.wf(),
            self.conds@.len() > 0,
        ensures
            rc.query@ == cond_query(self.conds.deep_view()[0]),
            is_each_answer(*self.graph, self.conds.deep_view(), rc.rows()),
    {
        let mut all: Vec<crate::results::Result> = Vec::new();
        let ghost mut parts: Seq<Seq<ResultView>> = Seq::empty();
        let mut i: usize = 0;
        proof {
            assert(all.deep_view() =~= parts.flatten());
        }
        while i < self.conds.len()
            invariant
                i <= self.conds@.len(),
                self.graph.wf(),
                parts.len() == i,
                forall|x: int|
                    0 <= x < i ==> self.graph.is_answer(cond_query(self.conds.deep_view()[x]), #[trigger] parts[x]),
                all.deep_view() == parts.flatten(),
            decreases self.conds@.len() - i,
        {
            let q = cond_as_query(&self.conds[i]);
            let mut rows = self.graph.answer(&q);
            let ghost prev = all.deep_view();
            let ghost fresh = rows.deep_view();
            let ghost len_before = all@.len();
            all.append(&mut rows);
            proof {
                assert(all.deep_view() =~= prev + fresh);
                parts.lemma_flatten_push(fresh);
                parts = parts.push(fresh);
            }
            i += 1;
        }
        ResultCollection::from(cond_as_query(&self.conds[0]), all)
    }
}

/// Whether `out` is, condition after condition, the rows that answer each condition.
pub open spec fn is_each_answer(g: Graph, conds: Seq<Seq<UnitView>>, out: Seq<ResultView>) -> bool {
    exists|parts: Seq<Seq<ResultView>>|
        {
            &&& parts.len() == conds.len()
            &&& forall|x: int| 0 <= x < conds.len() ==> g.is_answer(cond_query(conds[x]), #[trigger] parts[x])
            &&& out == #[trigger] parts.flatten()
        }
}

/// The condition as a query over subject, predicate and object.
fn cond_as_query(c: &[QueryUnit; 3]) -> (r: crate::queries::Query)
    ensures
        r@ == cond_query(c.deep_view()),
{
    let ord = [TOrder::S, TOrder::P, TOrder::O];
    proof {
        assert(ord@ =~= seq![TOrder::S, TOrder::P, TOrder::O]);
    }
    crate::queries::Query::Triple(c[0].duplicate(), c[1].duplicate(), c[2].duplicate(), ord)
}

/// Whether `unit` is among the declared units.
fn is_declared(declared: &Vec<QueryUnit>, unit: &QueryUnit) -> (r: bool)
    ensures
        r == declared.deep_view().contains(unit@),
{
    let mut i: usize = 0;
    while i < declared.len()
        invariant
            i <= declared@.len(),
            forall|x: int| 0 <= x < i ==> declared.deep_view()[x] != unit@,
        decreases declared@.len() - i,
    {
        if declared[i] == *unit {
            proof {
                assert(declared.deep_view()[i as int] == unit@);
            }
            return true;
        }
        i += 1;
    }
    false
}

/// The name of the unit where it is a variable that was not declared.
fn undeclared_name(declared: &Vec<QueryUnit>, unit: &QueryUnit) -> (r: Option<String>)
    ensures
        r is Some <==> is_undeclared(declared.deep_view(), unit@),
        r matches Some(name) ==> unit@ == UnitView::Var(name@),
{
    match unit {
        QueryUnit::Var(name) => {
            if is_declared(declared, unit) {
                None
            } else {
                Some(name.clone())
            }
        },
        _ => None,
    }
}

impl<'a> QueryBuilder<'a> {
    /// A builder with nothing set.
    pub fn new() -> (r: Self)
        ensures
            r.graph is None,
            r.vars is None,
            r.conds is None,
    {
        QueryBuilder { graph: None, vars: None, conds: None }
    }

    /// Sets the graph to ask. It can be set once only; variables and
    /// conditions are set after it.
    pub fn from(self, g: &'a Graph) -> (r: Self)
        requires
            self.graph is None,
        ensures
            r.graph == Some(g),
            r.vars is None,
            r.conds is None,
    {
        QueryBuilder { graph: Some(g), vars: None, conds: None }
    }

    /// Declares the variables, each in its written form. They can be
    /// declared once only; conditions are set after them.
    pub fn select(self, vars: &[&str]) -> (r: Self)
        requires
            self.vars is None,
        ensures
            r.graph == self.graph,
            r.vars is Some,
            r.vars->Some_0.deep_view() == written_units(vars@),
            r.conds is None,
    {
        let mut qunits: Vec<QueryUnit> = Vec::new();
        let mut i: usize = 0;
        while i < vars.len()
            invariant
                i <= vars@.len(),
                qunits.deep_view() =~= written_units(vars@.take(i as int)),
            decreases vars@.len() - i,
        {
            let ghost prev = qunits.deep_view();
            qunits.push(QueryUnit::from(vars[i]));
            proof {
                assert(qunits.deep_view() =~= prev.push(unit_of(vars@[i as int]@)));
            }
            i += 1;
        }
        proof {
            assert(vars@.take(i as int) =~= vars@);
        }
        QueryBuilder { graph: self.graph, vars: Some(qunits), conds: None }
    }

    /// Sets the conditions, each a triple of written units. Where variables
    /// have been declared, every variable of a condition must be one of
    /// them: the first that is not is reported by its name, and no query
    /// comes back. The conditions can be set once only.
    pub fn filter(self, conds: &[[&str; 3]]) -> (r: core::result::Result<Self, QueryError>)
        requires
            self.conds is None,
        ensures
            match (if self.vars is Some {
                first_undeclared(self.vars->Some_0.deep_view(), conds_written(conds@))
            } else {
                None
            }) {
                Some(u) => r matches Err(QueryError::UndeclaredVariable(name)) && u == UnitView::Var(name@),
                None => r matches Ok(b) && b.graph == self.graph && b.vars == self.vars && b.conds is Some
                    && b.conds->Some_0.deep_view() == conds_written(conds@),
            },
    {
        let mut qconds: Vec<[QueryUnit; 3]> = Vec::new();
        let mut i: usize = 0;
        let ghost declared = if self.vars is Some {
            self.vars->Some_0.deep_view()
        } else {
            Seq::empty()
        };
        while i < conds.len()
            invariant
                i <= conds@.len(),
                self.vars is Some ==> declared == self.vars->Some_0.deep_view(),
                qconds.deep_view() =~= conds_written(conds@.take(i as int)),
                self.vars is Some ==> first_undeclared(declared, conds_written(conds@.take(i as int))) is None,
            decreases conds@.len() - i,
        {
            let ghost prev = qconds.deep_view();
            let triple = [QueryUnit::from(conds[i][0]), QueryUnit::from(conds[i][1]), QueryUnit::from(conds[i][2])];
            proof {
                assert(triple.deep_view() =~= written_units(conds@[i as int]@));
                let cw = conds_written(conds@);
                assert(cw.take(i as int) =~= conds_written(conds@.take(i as int)));
                assert(cw.take(i + 1) =~= conds_written(conds@.take(i + 1)));
                assert(cw.take(i + 1).drop_last() =~= cw.take(i as int));
                assert(cw.take(i + 1).last() == triple.deep_view());
                if self.vars is Some {
                    lemma_reported_first(declared, cw, i as int);
                }
            }
            if let Some(vars_vec) = &self.vars {
                if let Some(name) = undeclared_name(vars_vec, &triple[0]) {
                    return Err(QueryError::UndeclaredVariable(name));
                }
                if let Some(name) = undeclared_name(vars_vec, &triple[1]) {
                    return Err(QueryError::UndeclaredVariable(name));
                }
                if let Some(name) = undeclared_name(vars_vec, &triple[2]) {
                    return Err(QueryError::UndeclaredVariable(name));
                }
            }
            qconds.push(triple);
            proof {
                assert(qconds.deep_view() =~= prev.push(written_units(conds@[i as int]@)));
            }
            i += 1;
        }
        proof {
            assert(conds@.take(i as int) =~= conds@);
        }
        Ok(QueryBuilder { graph: self.graph, vars: self.vars, conds: Some(qconds) })
    }

    /// The query that has been put together. Graph, variables and conditions must all be set.
    pub fn compile(self) -> (r: Query<'a>)
        requires
            self.graph is Some,
            self.vars is Some,
            self.conds is Some,
        ensures
            r.graph == self.graph->Some_0,
            r.vars == self.vars->Some_0,
            r.conds == self.conds->Some_0,
    {
        match (self.graph, self.vars, self.conds) {
            (Some(g), Some(vs), Some(cs)) => Query { graph: g, vars: vs, conds: cs },
            _ => vstd::pervasive::unreached(),
        }
    }

    /// Puts the query together and runs it.
    pub fn fetch(self) -> (rc: ResultCollection)
        requires
            self.graph is Some,
            self.vars is Some,
            self.conds is Some,
            self.graph->Some_0.wf(),
            self.conds->Some_0@.len() > 0,
        ensures
            rc.query@ == cond_query(self.conds->Some_0.deep_view()[0]),
            self.graph->Some_0.is_answer(cond_query(self.conds->Some_0.deep_view()[0]), rc.rows()),
    {
        self.compile().fetch()
    }
}

/// Where the conditions before the one at place i hold no undeclared
/// variable, the first undeclared variable of all conditions is the first of
/// the condition at place i, if that has one.
proof fn lemma_reported_first(declared: Seq<UnitView>, conds: Seq<Seq<UnitView>>, i: int)
    requires
        0 <= i < conds.len(),
        first_undeclared(declared, conds.take(i)) is None,
    ensures
        first_undeclared(declared, conds.take(i + 1)) is Some ==> first_undeclared(declared, conds)
            == first_undeclared(declared, conds.take(i + 1)),
    decreases conds.len() - i,
{
    let upto = conds.take(i + 1);
    if first_undeclared(declared, upto) is Some {
        lemma_first_stays(declared, conds, i + 1, conds.len() as int);
        assert(conds.take(conds.len() as int) =~= conds);
    }
}

/// A first undeclared variable among the first n conditions is the first among the first m.
proof fn lemma_first_stays(declared: Seq<UnitView>, conds: Seq<Seq<UnitView>>, n: int, m: int)
    requires
        0 <= n <= m <= conds.len(),
        first_undeclared(declared, conds.take(n)) is Some,
    ensures
        first_undeclared(declared, conds.take(m)) == first_undeclared(declared, conds.take(n)),
    decreases m - n,
{
    if n < m {
        lemma_first_stays(declared, conds, n, m - 1);
        assert(conds.take(m).drop_last() =~= conds.take(m - 1));
    }
}

} // verus!
