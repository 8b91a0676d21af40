//! What holds of the graph whatever is stored in it and removed from it,
//! stated over what the three rotations hold.

use vstd::prelude::*;
use crate::evaluate::{bound_row, declared_at, lemma_bound_lookup};
use crate::graph::{
    decoded, law_erase_keeps_agreement, law_insert_keeps_agreement, state_with, state_without, Graph, Rotations,
};
use crate::nested::{
    law_added_twice, law_erased_added, lemma_nested_of, nested_facts, nested_holds, nested_ok, NestedView,
};
use crate::path::Walk;
use crate::queries::UnitView;
use crate::triple::{as_osp, as_pos, Fact, TOrder};

verus! {

/// One change to a graph.
pub enum Change {
    /// The triple is stored.
    Insert(Fact),
    /// The triple is removed.
    Erase(Fact),
}

/// What the rotations hold after one change.
pub open spec fn changed(r: Rotations, c: Change) -> Rotations {
    match c {
        Change::Insert(f) => r.with(f),
        Change::Erase(f) => r.without(f),
    }
}

/// What the rotations hold after the changes, made in order.
pub open spec fn after(r: Rotations, changes: Seq<Change>) -> Rotations
    decreases changes.len(),
{
    if changes.len() == 0 {
        r
    } else {
        changed(after(r, changes.drop_last()), changes.last())
    }
}

/// Whatever triples are stored and removed, in whatever order, the three
/// rotations hold the same triples after every one of the changes.
pub proof fn law_rotations_agree(start: Rotations, changes: Seq<Change>, n: int)
    requires
        start.agree(),
        0 <= n <= changes.len(),
    ensures
        after(start, changes.take(n)).agree(),
    decreases n,
{
    let upto = changes.take(n);
    if n > 0 {
        law_rotations_agree(start, changes, n - 1);
        assert(upto.drop_last() =~= changes.take(n - 1));
        let before = after(start, changes.take(n - 1));
        match upto.last() {
            Change::Insert(f) => law_insert_keeps_agreement(before, f),
            Change::Erase(f) => law_erase_keeps_agreement(before, f),
        }
    }
}

/// What was built from nothing by storing and removing holds the same
/// triples in all three rotations.
pub proof fn law_rotations_agree_from_empty(changes: Seq<Change>)
    ensures
        after(Rotations::empty(), changes).agree(),
{
    let start = Rotations::empty();
    assert(decoded(start.pos, TOrder::POS) =~= start.spo);
    assert(decoded(start.osp, TOrder::OSP) =~= start.spo);
    law_rotations_agree(start, changes, changes.len() as int);
    assert(changes.take(changes.len() as int) =~= changes);
}

/// Storing a triple a second time changes none of the three rotations.
pub proof fn law_insert_twice(r: Rotations, f: Fact)
    ensures
        r.with(f).with(f) == r.with(f),
{
    let once = r.with(f);
    let twice = once.with(f);
    assert(twice.spo =~= once.spo);
    assert(twice.pos =~= once.pos);
    assert(twice.osp =~= once.osp);
}

/// Storing a triple that was not there and removing it again leaves all
/// three rotations as they were.
pub proof fn law_erase_undoes_insert(r: Rotations, f: Fact)
    requires
        r.agree(),
        !r.spo.contains(f),
    ensures
        r.with(f).without(f) == r,
{
    let back = r.with(f).without(f);
    assert(!decoded(r.pos, TOrder::POS).contains(f));
    assert(!decoded(r.osp, TOrder::OSP).contains(f));
    assert(!r.pos.contains(as_pos(f)));
    assert(!r.osp.contains(as_osp(f)));
    assert(back.spo =~= r.spo);
    assert(back.pos =~= r.pos);
    assert(back.osp =~= r.osp);
}

/// What the three rotations hold, given their contents as nested values.
pub open spec fn rotations_of(s: (NestedView, NestedView, NestedView)) -> Rotations {
    Rotations { spo: nested_facts(s.0), pos: nested_facts(s.1), osp: nested_facts(s.2) }
}

/// Whether the contents of the three rotations are those of well-formed indexes that agree.
pub open spec fn state_ok(s: (NestedView, NestedView, NestedView)) -> bool {
    &&& nested_ok(s.0)
    &&& nested_ok(s.1)
    &&& nested_ok(s.2)
    &&& rotations_of(s).agree()
}

/// The contents of a well-formed graph are in order, and hold what the graph's rotations hold.
pub proof fn law_graph_state(g: Graph)
    ensures
        g.rotations() == rotations_of(g.state()),
        g.wf() <==> state_ok(g.state()),
{
    lemma_nested_of(g.spo);
    lemma_nested_of(g.pos);
    lemma_nested_of(g.osp);
}

/// Storing a triple a second time leaves the contents of all three
/// rotations as they were after the first time, place for place.
pub proof fn law_state_insert_twice(s: (NestedView, NestedView, NestedView), f: Fact)
    requires
        state_ok(s),
    ensures
        state_with(state_with(s, f), f) == state_with(s, f),
{
    law_added_twice(s.0, f);
    law_added_twice(s.1, as_pos(f));
    law_added_twice(s.2, as_osp(f));
}

/// Storing a triple that was not there and removing it again leaves the
/// contents of all three rotations as they were before, place for place.
pub proof fn law_state_restored(s: (NestedView, NestedView, NestedView), f: Fact)
    requires
        state_ok(s),
        !nested_holds(s.0, f),
    ensures
        state_without(state_with(s, f), f) == s,
{
    let r = rotations_of(s);
    assert(!r.spo.contains(f));
    assert(!decoded(r.pos, TOrder::POS).contains(f));
    assert(!decoded(r.osp, TOrder::OSP).contains(f));
    assert(!nested_holds(s.1, as_pos(f)));
    assert(!nested_holds(s.2, as_osp(f)));
    law_erased_added(s.0, f);
    law_erased_added(s.1, as_pos(f));
    law_erased_added(s.2, as_osp(f));
}

/// In the row that a query's units take from a match, the name of a variable
/// gives the value matched at the position where the query declared it (at
/// the last such position, where it declared the name more than once), and a
/// name that the query did not declare gives nothing.
pub proof fn law_variable_binding(units: Seq<UnitView>, matched: Walk, name: Seq<char>)
    requires
        units.len() == matched.len(),
        units.len() <= usize::MAX,
    ensures
        bound_row(units, matched).lookup(name) == match declared_at(units, name, units.len() as int) {
            Some(k) => Some(matched[k]),
            None => None,
        },
        declared_at(units, name, units.len() as int) matches Some(k) ==> 0 <= k < units.len() && units[k]
            == UnitView::Var(name),
        (forall|k: int| 0 <= k < units.len() ==> units[k] != UnitView::Var(name)) ==> bound_row(
            units,
            matched,
        ).lookup(name) is None,
{
    lemma_bound_lookup(units, matched, name, units.len() as int);
    if forall|k: int| 0 <= k < units.len() ==> units[k] != UnitView::Var(name) {
        lemma_never_declared(units, name, units.len() as int);
    }
}

/// A name that no unit declares is declared at no position.
proof fn lemma_never_declared(units: Seq<UnitView>, name: Seq<char>, n: int)
    requires
        0 <= n <= units.len(),
        forall|k: int| 0 <= k < units.len() ==> units[k] != UnitView::Var(name),
    ensures
        declared_at(units, name, n) is None,
    decreases n,
{
    if n > 0 {
        lemma_never_declared(units, name, n - 1);
    }
}

} // verus!
