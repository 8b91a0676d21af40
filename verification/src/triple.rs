//! The vocabulary shared by every module: triples, query patterns, the
//! orderings in which positions can be given, and what it means for a
//! pattern to match a fact.

use vstd::prelude::*;

verus! {

/// A stored fact: subject, predicate, object.
pub type Triple = (String, String, String);

/// A lookup pattern over the three positions; `None` leaves a position open.
pub type QueryTriple = (Option<String>, Option<String>, Option<String>);

/// A path pattern: node, edge, node, edge and so on; `None` leaves a position open.
pub type QueryChain<'a> = &'a [Option<String>];

/// The two leading values of a triple.
pub type Double = (String, String);

/// A lookup pattern over the two leading positions.
pub type QueryDouble = (Option<String>, Option<String>);

/// A triple as contracts see it: the character sequences of its three positions.
pub type Fact = (Seq<char>, Seq<char>, Seq<char>);

/// A pattern as contracts see it.
pub type Pattern = (Option<Seq<char>>, Option<Seq<char>>, Option<Seq<char>>);

/// The orderings in which one, two or three positions of a triple can be given.
/// Only `SPO`, `POS` and `OSP` are kept as indexes; `SP`, `PO` and `OS` are their
/// leading pairs and `S`, `P` and `O` their leading positions.
#[derive(Clone, Copy, Debug, PartialEq, Eq, Structural)]
pub enum TOrder {
    SPO,
    POS,
    OSP,
    SP,
    PO,
    OS,
    S,
    P,
    O,
}

/// An open position accepts any value; a bound one only its own.
pub open spec fn position_matches(want: Option<Seq<char>>, have: Seq<char>) -> bool {
    want matches Some(v) ==> v == have
}

/// A pattern matches a fact when each of its bound positions equals the fact's.
pub open spec fn pattern_matches(p: Pattern, f: Fact) -> bool {
    &&& position_matches(p.0, f.0)
    &&& position_matches(p.1, f.1)
    &&& position_matches(p.2, f.2)
}

/// The fact (subject, predicate, object) as the predicate-first index holds it.
pub open spec fn as_pos(f: Fact) -> Fact {
    (f.1, f.2, f.0)
}

/// The fact (subject, predicate, object) as the object-first index holds it.
pub open spec fn as_osp(f: Fact) -> Fact {
    (f.2, f.0, f.1)
}

/// A triple read in the ordering `ord`, put back into subject, predicate, object order.
/// Every ordering but `POS` and `OSP` is taken to be in that order already.
pub open spec fn to_spo(f: Fact, ord: TOrder) -> Fact {
    match ord {
        TOrder::POS => (f.2, f.0, f.1),
        TOrder::OSP => (f.1, f.2, f.0),
        _ => f,
    }
}

/// Puts a triple that is held in the ordering `curr_ordering` back into
/// subject, predicate, object order.
pub fn t_order(t: Triple, curr_ordering: &TOrder) -> (r: Triple)
    ensures
        r@ == to_spo(t@, *curr_ordering),
{
    match curr_ordering {
        TOrder::POS => (t.2, t.0, t.1),
        TOrder::OSP => (t.1, t.2, t.0),
        _ => t,
    }
}

/// What a cursor at `pos` hands out next: the entry there, or nothing behind the last.
pub open spec fn remaining_first<T>(items: Seq<T>, pos: int) -> Option<T> {
    if 0 <= pos < items.len() {
        Some(items[pos])
    } else {
        None
    }
}

/// The fact (subject, predicate, object) as the rotation `ord` holds it.
/// Every ordering but `POS` and `OSP` holds it as it is.
pub open spec fn rotated(f: Fact, ord: TOrder) -> Fact {
    match ord {
        TOrder::POS => as_pos(f),
        TOrder::OSP => as_osp(f),
        _ => f,
    }
}

/// The triple (subject, predicate, object) as the rotation `ord` holds it.
pub fn rotate(t: &Triple, ord: &TOrder) -> (r: Triple)
    ensures
        r@ == rotated(t@, *ord),
{
    match ord {
        TOrder::POS => (t.1.clone(), t.2.clone(), t.0.clone()),
        TOrder::OSP => (t.2.clone(), t.0.clone(), t.1.clone()),
        _ => (t.0.clone(), t.1.clone(), t.2.clone()),
    }
}

/// Rotating a fact and reading it back gives the fact again, and so does
/// reading a rotated fact back and rotating it.
pub proof fn law_rotations_invert(f: Fact, ord: TOrder)
    ensures
        to_spo(rotated(f, ord), ord) == f,
        rotated(to_spo(f, ord), ord) == f,
{
}

} // verus!
