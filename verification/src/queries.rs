//! Structured queries: what is asked of each position of a triple, and the
//! smallest query that a list of units stands for.

use vstd::prelude::*;
use vstd::std_specs::cmp::PartialEqSpecImpl;
use crate::triple::TOrder;

verus! {

/// What a query asks of one position.
#[derive(Clone, Debug)]
pub enum QueryUnit {
    /// The position must hold this value.
    Val(String),
    /// The position is open, and what it holds is kept under this name.
    Var(String),
    /// The position is open, and what it holds is kept without a name.
    Anon,
    /// The position takes no part in the query.
    Ignore,
}

/// A query unit as contracts see it.
pub enum UnitView {
    Val(Seq<char>),
    Var(Seq<char>),
    Anon,
    Ignore,
}

impl View for QueryUnit {
    type V = UnitView;

    open spec fn view(&self) -> UnitView {
        match self {
            QueryUnit::Val(v) => UnitView::Val(v@),
            QueryUnit::Var(v) => UnitView::Var(v@),
            QueryUnit::Anon => UnitView::Anon,
            QueryUnit::Ignore => UnitView::Ignore,
        }
    }
}

impl DeepView for QueryUnit {
    type V = UnitView;

    open spec fn deep_view(&self) -> UnitView {
        self@
    }
}

impl UnitView {
    /// The value that a lookup is bound to at this position, if the unit names one.
    pub open spec fn bound(self) -> Option<Seq<char>> {
        match self {
            UnitView::Val(v) => Some(v),
            _ => None,
        }
    }
}

/// How a unit is written: nothing or a leading `_` leaves the position out,
/// a leading `$` names a variable by the rest of the text, a leading `?` is
/// the unnamed variable, anything else is a value.
pub open spec fn unit_of(s: Seq<char>) -> UnitView {
    if s.len() == 0 {
        UnitView::Ignore
    } else if s[0] == '_' {
        UnitView::Ignore
    } else if s[0] == '$' {
        UnitView::Var(s.subrange(1, s.len() as int))
    } else if s[0] == '?' {
        UnitView::Anon
    } else {
        UnitView::Val(s)
    }
}

impl QueryUnit {
    /// Reads a unit from its written form.
    pub fn from(s: &str) -> (r: Self)
        ensures
            r@ == unit_of(s@),
    {
        let n = s.unicode_len();
        if n == 0 {
            return QueryUnit::Ignore;
        }
        let first = s.get_char(0);
        if first == '_' {
            QueryUnit::Ignore
        } else if first == '$' {
            QueryUnit::Var(s.substring_char(1, n).to_owned())
        } else if first == '?' {
            QueryUnit::Anon
        } else {
            QueryUnit::Val(s.to_owned())
        }
    }

    /// A unit equal to this one.
    pub fn duplicate(&self) -> (r: Self)
        ensures
            r@ == self@,
    {
        match self {
            QueryUnit::Val(v) => QueryUnit::Val(v.clone()),
            QueryUnit::Var(v) => QueryUnit::Var(v.clone()),
            QueryUnit::Anon => QueryUnit::Anon,
            QueryUnit::Ignore => QueryUnit::Ignore,
        }
    }

    /// The value to look up at this position: the unit's own where it is a
    /// value, none where the position is open or left out.
    pub fn literal(&self) -> (r: Option<String>)
        ensures
            r.deep_view() == self@.bound(),
    {
        match self {
            QueryUnit::Val(v) => Some(v.clone()),
            _ => None,
        }
    }
}

impl PartialEq for QueryUnit {
    fn eq(&self, other: &Self) -> (r: bool) {
        match self {
            QueryUnit::Val(a) => {
                if let QueryUnit::Val(b) = other {
                    *a == *b
                } else {
                    false
                }
            },
            QueryUnit::Var(a) => {
                if let QueryUnit::Var(b) = other {
                    *a == *b
                } else {
                    false
                }
            },
            QueryUnit::Anon => {
                if let QueryUnit::Anon = other {
                    true
                } else {
                    false
                }
            },
            QueryUnit::Ignore => {
                if let QueryUnit::Ignore = other {
                    true
                } else {
                    false
                }
            },
        }
    }
}

impl PartialEqSpecImpl for QueryUnit {
    open spec fn obeys_eq_spec() -> bool {
        true
    }

    open spec fn eq_spec(&self, other: &QueryUnit) -> bool {
        self@ == other@
    }
}

/// A query over one, two or three positions, with the ordering in which the
/// positions are given; or the query that asks nothing.
#[derive(Clone, Debug)]
pub enum Query {
    Null,
    Single(QueryUnit, TOrder),
    Double(QueryUnit, QueryUnit, [TOrder; 2]),
    Triple(QueryUnit, QueryUnit, QueryUnit, [TOrder; 3]),
}

/// A query as contracts see it.
pub enum QueryView {
    Null,
    Single(UnitView, TOrder),
    Double(UnitView, UnitView, Seq<TOrder>),
    Triple(UnitView, UnitView, UnitView, Seq<TOrder>),
}

impl View for Query {
    type V = QueryView;

    open spec fn view(&self) -> QueryView {
        match self {
            Query::Null => QueryView::Null,
            Query::Single(a, ord) => QueryView::Single(a@, *ord),
            Query::Double(a, b, ord) => QueryView::Double(a@, b@, ord@),
            Query::Triple(a, b, c, ord) => QueryView::Triple(a@, b@, c@, ord@),
        }
    }
}

impl DeepView for Query {
    type V = QueryView;

    open spec fn deep_view(&self) -> QueryView {
        self@
    }
}

/// The query over one position, or no query where the position is left out.
pub open spec fn single_of(a: UnitView, ord: TOrder) -> QueryView {
    if a is Ignore {
        QueryView::Null
    } else {
        QueryView::Single(a, ord)
    }
}

/// The query over two positions, or over the one that is not left out.
pub open spec fn double_of(a: UnitView, b: UnitView, ord: Seq<TOrder>) -> QueryView {
    if a is Ignore {
        single_of(b, ord[1])
    } else if b is Ignore {
        single_of(a, ord[0])
    } else {
        QueryView::Double(a, b, ord)
    }
}

/// The query over subject, predicate and object, or over those that are not
/// left out. Two positions that remain are put in the order in which a
/// rotation leads with them: subject and predicate, predicate and object, or
/// object and subject.
pub open spec fn triple_of(s: UnitView, p: UnitView, o: UnitView) -> QueryView {
    if s is Ignore {
        double_of(p, o, seq![TOrder::P, TOrder::O])
    } else if p is Ignore {
        double_of(o, s, seq![TOrder::O, TOrder::S])
    } else if o is Ignore {
        double_of(s, p, seq![TOrder::S, TOrder::P])
    } else {
        QueryView::Triple(s, p, o, seq![TOrder::S, TOrder::P, TOrder::O])
    }
}

/// The smallest query that a list of units stands for. One unit is a
/// subject, two are subject and predicate, three are a triple; no unit, or
/// more than three, ask nothing.
pub open spec fn query_of(units: Seq<UnitView>) -> QueryView {
    if units.len() == 1 {
        single_of(units[0], TOrder::S)
    } else if units.len() == 2 {
        double_of(units[0], units[1], seq![TOrder::S, TOrder::P])
    } else if units.len() == 3 {
        triple_of(units[0], units[1], units[2])
    } else {
        QueryView::Null
    }
}

impl QueryView {
    /// The query with the positions that are left out taken away.
    pub open spec fn normalized(self) -> QueryView {
        match self {
            QueryView::Null => QueryView::Null,
            QueryView::Single(a, ord) => single_of(a, ord),
            QueryView::Double(a, b, ord) => double_of(a, b, ord),
            QueryView::Triple(s, p, o, _) => triple_of(s, p, o),
        }
    }

    /// Whether no position of the query is left out.
    pub open spec fn is_normal(self) -> bool {
        match self {
            QueryView::Null => true,
            QueryView::Single(a, _) => !(a is Ignore),
            QueryView::Double(a, b, _) => !(a is Ignore) && !(b is Ignore),
            QueryView::Triple(s, p, o, _) => !(s is Ignore) && !(p is Ignore) && !(o is Ignore),
        }
    }

    /// Whether the positions are given in an ordering in which a rotation leads.
    pub open spec fn is_led(self) -> bool {
        match self {
            QueryView::Null => true,
            QueryView::Single(_, ord) => ord == TOrder::S || ord == TOrder::P || ord == TOrder::O,
            QueryView::Double(_, _, ord) => ord =~= seq![TOrder::S, TOrder::P] || ord =~= seq![
                TOrder::P,
                TOrder::O,
            ] || ord =~= seq![TOrder::O, TOrder::S],
            QueryView::Triple(_, _, _, ord) => ord =~= seq![TOrder::S, TOrder::P, TOrder::O],
        }
    }
}

impl Query {
    /// The query over one position, or no query where the position is left out.
    pub fn make_single(val: QueryUnit, ord: TOrder) -> (r: Self)
        ensures
            r@ == single_of(val@, ord),
    {
        if let QueryUnit::Ignore = val {
            return Query::Null;
        }
        Query::Single(val, ord)
    }

    /// The query over two positions, or over the one that is not left out.
    pub fn make_double(head: QueryUnit, tail: QueryUnit, ord: [TOrder; 2]) -> (r: Self)
        ensures
            r@ == double_of(head@, tail@, ord@),
    {
        if let QueryUnit::Ignore = head {
            return Self::make_single(tail, ord[1]);
        }
        if let QueryUnit::Ignore = tail {
            return Self::make_single(head, ord[0]);
        }
        Query::Double(head, tail, ord)
    }

    /// The query over subject, predicate and object, or over those that are not left out.
    pub fn make_triple(head: QueryUnit, mid: QueryUnit, tail: QueryUnit) -> (r: Self)
        ensures
            r@ == triple_of(head@, mid@, tail@),
    {
        if let QueryUnit::Ignore = head {
            let ord = [TOrder::P, TOrder::O];
            proof {
                assert(ord@ =~= seq![TOrder::P, TOrder::O]);
            }
            return Self::make_double(mid, tail, ord);
        }
        if let QueryUnit::Ignore = mid {
            let ord = [TOrder::O, TOrder::S];
            proof {
                assert(ord@ =~= seq![TOrder::O, TOrder::S]);
            }
            return Self::make_double(tail, head, ord);
        }
        if let QueryUnit::Ignore = tail {
            let ord = [TOrder::S, TOrder::P];
            proof {
                assert(ord@ =~= seq![TOrder::S, TOrder::P]);
            }
            return Self::make_double(head, mid, ord);
        }
        let ord = [TOrder::S, TOrder::P, TOrder::O];
        proof {
            assert(ord@ =~= seq![TOrder::S, TOrder::P, TOrder::O]);
        }
        Query::Triple(head, mid, tail, ord)
    }

    /// The smallest query that the units stand for.
    pub fn from(vals: &[QueryUnit]) -> (r: Self)
        ensures
            r@ == query_of(vals.deep_view()),
            r@.is_normal(),
            r@.is_led(),
    {
        proof {
            lemma_query_of(vals.deep_view());
        }
        if vals.len() == 1 {
            Self::make_single(vals[0].duplicate(), TOrder::S)
        } else if vals.len() == 2 {
            let ord = [TOrder::S, TOrder::P];
            proof {
                assert(ord@ =~= seq![TOrder::S, TOrder::P]);
            }
            Self::make_double(vals[0].duplicate(), vals[1].duplicate(), ord)
        } else if vals.len() == 3 {
            Self::make_triple(vals[0].duplicate(), vals[1].duplicate(), vals[2].duplicate())
        } else {
            Query::Null
        }
    }

    /// The smallest query that the written units stand for.
    pub fn from_str(vals: &[&str]) -> (r: Self)
        ensures
            r@ == query_of(written_units(vals@)),
            r@.is_normal(),
            r@.is_led(),
    {
        proof {
            lemma_query_of(written_units(vals@));
        }
        if vals.len() == 1 {
            Self::make_single(QueryUnit::from(vals[0]), TOrder::S)
        } else if vals.len() == 2 {
            let ord = [TOrder::S, TOrder::P];
            proof {
                assert(ord@ =~= seq![TOrder::S, TOrder::P]);
            }
            Self::make_double(QueryUnit::from(vals[0]), QueryUnit::from(vals[1]), ord)
        } else if vals.len() == 3 {
            Self::make_triple(QueryUnit::from(vals[0]), QueryUnit::from(vals[1]), QueryUnit::from(vals[2]))
        } else {
            Query::Null
        }
    }

    /// The query with the positions that are left out taken away.
    pub fn normalize(self) -> (r: Self)
        ensures
            r@ == self@.normalized(),
            r@.is_normal(),
    {
        proof {
            lemma_normalized(self@);
        }
        match self {
            Query::Null => Query::Null,
            Query::Single(a, ord) => Self::make_single(a, ord),
            Query::Double(a, b, ord) => Self::make_double(a, b, ord),
            Query::Triple(a, b, c, _) => Self::make_triple(a, b, c),
        }
    }

    /// A query equal to this one.
    pub fn duplicate(&self) -> (r: Self)
        ensures
            r@ == self@,
    {
        match self {
            Query::Null => Query::Null,
            Query::Single(a, ord) => Query::Single(a.duplicate(), *ord),
            Query::Double(a, b, ord) => Query::Double(a.duplicate(), b.duplicate(), *ord),
            Query::Triple(a, b, c, ord) => Query::Triple(a.duplicate(), b.duplicate(), c.duplicate(), *ord),
        }
    }
}

/// The units that the written forms stand for, in order.
pub open spec fn written_units(vals: Seq<&str>) -> Seq<UnitView> {
    Seq::new(vals.len(), |i: int| unit_of(vals[i]@))
}

impl PartialEq for Query {
    fn eq(&self, other: &Self) -> (r: bool) {
        match self {
            Query::Null => {
                if let Query::Null = other {
                    return true;
                }
                false
            },
            Query::Single(a, ord_a) => {
                if let Query::Single(x, ord_x) = other {
                    return *a == *x && *ord_a == *ord_x;
                }
                false
            },
            Query::Double(a, b, ord_a) => {
                if let Query::Double(x, y, ord_x) = other {
                    let same = ord_a[0] == ord_x[0] && ord_a[1] == ord_x[1];
                    proof {
                        assert(same == (ord_a@ =~= ord_x@));
                    }
                    return *a == *x && *b == *y && same;
                }
                false
            },
            Query::Triple(a, b, c, ord_a) => {
                if let Query::Triple(x, y, z, ord_x) = other {
                    let same = ord_a[0] == ord_x[0] && ord_a[1] == ord_x[1] && ord_a[2] == ord_x[2];
                    proof {
                        assert(same == (ord_a@ =~= ord_x@));
                    }
                    return *a == *x && *b == *y && *c == *z && same;
                }
                false
            },
        }
    }
}

impl PartialEqSpecImpl for Query {
    open spec fn obeys_eq_spec() -> bool {
        true
    }

    open spec fn eq_spec(&self, other: &Query) -> bool {
        self@ == other@
    }
}

/// Taking the left-out positions away leaves none, whatever the query.
pub proof fn lemma_normalized(q: QueryView)
    ensures
        q.normalized().is_normal(),
        q.is_normal() && q.is_led() ==> q.normalized() == q,
        q.normalized().normalized() == q.normalized(),
{
}

/// Every list of units stands for exactly one query; that query leaves no
/// position out and gives its positions in an ordering in which a rotation leads.
pub proof fn lemma_query_of(units: Seq<UnitView>)
    ensures
        query_of(units).is_normal(),
        query_of(units).is_led(),
        query_of(units).normalized() == query_of(units),
{
}

} // verus!
