//! The graph: one set of triples held in three rotations, so that every
//! combination of bound positions is a lookup by leading positions somewhere.

use vstd::prelude::*;
use crate::triple::{
    as_osp, as_pos, pattern_matches, rotate, rotated, to_spo, Fact, Pattern, QueryTriple, TOrder, Triple,
};
use crate::nested::{added, erased, NestedView};
use crate::triple_store::{ordered_rows, TripleStore};

verus! {

/// A set of triples, indexed subject-first, predicate-first and object-first.
#[derive(Clone, Debug, PartialEq)]
pub struct Graph {
    /// Every triple as (subject, predicate, object).
    pub spo: TripleStore,
    /// Every triple as (predicate, object, subject).
    pub pos: TripleStore,
    /// Every triple as (object, subject, predicate).
    pub osp: TripleStore,
}

impl View for Graph {
    type V = Set<Fact>;

    /// The triples of the graph, each as (subject, predicate, object).
    open spec fn view(&self) -> Set<Fact> {
        self.spo@
    }
}

/// The triples of a rotated index, each read back as (subject, predicate, object).
pub open spec fn decoded(held: Set<Fact>, ord: TOrder) -> Set<Fact> {
    match ord {
        TOrder::POS => Set::new(|f: Fact| held.contains(as_pos(f))),
        TOrder::OSP => Set::new(|f: Fact| held.contains(as_osp(f))),
        _ => held,
    }
}

/// What the three rotations hold, each in its own order of positions.
pub struct Rotations {
    pub spo: Set<Fact>,
    pub pos: Set<Fact>,
    pub osp: Set<Fact>,
}

impl Rotations {
    /// Three rotations that hold nothing.
    pub open spec fn empty() -> Rotations {
        Rotations { spo: Set::empty(), pos: Set::empty(), osp: Set::empty() }
    }

    /// Whether the three rotations, read back as (subject, predicate, object), hold the same triples.
    pub open spec fn agree(self) -> bool {
        &&& decoded(self.pos, TOrder::POS) == self.spo
        &&& decoded(self.osp, TOrder::OSP) == self.spo
    }

    /// The rotations with the triple stored in each, in that rotation's order.
    pub open spec fn with(self, f: Fact) -> Rotations {
        Rotations { spo: self.spo.insert(f), pos: self.pos.insert(as_pos(f)), osp: self.osp.insert(as_osp(f)) }
    }

    /// The rotations with the triple removed from each, in that rotation's order.
    pub open spec fn without(self, f: Fact) -> Rotations {
        Rotations { spo: self.spo.remove(f), pos: self.pos.remove(as_pos(f)), osp: self.osp.remove(as_osp(f)) }
    }
}

impl Graph {
    /// What the three rotations of the graph hold.
    pub open spec fn rotations(&self) -> Rotations {
        Rotations { spo: self.spo@, pos: self.pos@, osp: self.osp@ }
    }

    /// The contents of the three rotations as nested values, in the order in which each keeps them.
    pub open spec fn state(&self) -> (NestedView, NestedView, NestedView) {
        (self.spo.nested(), self.pos.nested(), self.osp.nested())
    }

    /// Whether the three rotations hold the same triples.
    pub open spec fn consistent(&self) -> bool {
        self.rotations().agree()
    }

    /// The graph invariant: three well-formed indexes that agree.
    pub open spec fn wf(&self) -> bool {
        &&& self.spo.wf()
        &&& self.pos.wf()
        &&& self.osp.wf()
        &&& self.consistent()
    }

    /// A graph without triples.
    pub fn new() -> (r: Self)
        ensures
            r.wf(),
            r@ == Set::<Fact>::empty(),
            r.rotations() == Rotations::empty(),
    {
        let r = Graph { spo: TripleStore::new(), pos: TripleStore::new(), osp: TripleStore::new() };
        proof {
            assert(decoded(r.pos@, TOrder::POS) =~= r.spo@);
            assert(decoded(r.osp@, TOrder::OSP) =~= r.spo@);
        }
        r
    }

    /// Stores the triple in all three rotations. Storing a triple that is
    /// already there changes nothing.
    pub fn add(&mut self, t: Triple)
        requires
            old(self).wf(),
        ensures
            final(self).wf(),
            final(self)@ == old(self)@.insert(t@),
            final(self).rotations() == old(self).rotations().with(t@),
            final(self).state() == state_with(old(self).state(), t@),
            old(self)@.contains(t@) ==> *final(self) == *old(self),
    {
        let ghost f: Fact = t@;
        self.pos.add(rotate(&t, &TOrder::POS));
        self.osp.add(rotate(&t, &TOrder::OSP));
        self.spo.add(t);
        proof {
            law_insert_keeps_agreement(old(self).rotations(), f);
            if old(self)@.contains(f) {
                assert(decoded(old(self).pos@, TOrder::POS).contains(f));
                assert(decoded(old(self).osp@, TOrder::OSP).contains(f));
            }
        }
    }

    /// Removes the triple from all three rotations. Removing a triple that is
    /// not there changes nothing.
    pub fn erase(&mut self, t: &Triple)
        requires
            old(self).wf(),
        ensures
            final(self).wf(),
            final(self)@ == old(self)@.remove(t@),
            final(self).rotations() == old(self).rotations().without(t@),
            final(self).state() == state_without(old(self).state(), t@),
            !old(self)@.contains(t@) ==> *final(self) == *old(self),
    {
        let ghost f: Fact = t@;
        self.spo.erase(t);
        self.pos.erase(&rotate(t, &TOrder::POS));
        self.osp.erase(&rotate(t, &TOrder::OSP));
        proof {
            law_erase_keeps_agreement(old(self).rotations(), f);
            if !old(self)@.contains(f) {
                assert(!decoded(old(self).pos@, TOrder::POS).contains(f));
                assert(!decoded(old(self).osp@, TOrder::OSP).contains(f));
            }
        }
    }

    /// Removes one triple, then stores another.
    pub fn replace(&mut self, old_t: &Triple, new_t: Triple)
        requires
            old(self).wf(),
        ensures
            final(self).wf(),
            final(self)@ == old(self)@.remove(old_t@).insert(new_t@),
            final(self).state() == state_with(state_without(old(self).state(), old_t@), new_t@),
    {
        self.erase(old_t);
        self.add(new_t);
    }

    /// Stores the triple; another name for `add`.
    pub fn insert(&mut self, t: Triple)
        requires
            old(self).wf(),
        ensures
            final(self).wf(),
            final(self)@ == old(self)@.insert(t@),
            final(self).rotations() == old(self).rotations().with(t@),
            final(self).state() == state_with(old(self).state(), t@),
            old(self)@.contains(t@) ==> *final(self) == *old(self),
    {
        self.add(t);
    }

    /// Removes the triple; another name for `erase`.
    pub fn remove(&mut self, t: &Triple)
        requires
            old(self).wf(),
        ensures
            final(self).wf(),
            final(self)@ == old(self)@.remove(t@),
            final(self).rotations() == old(self).rotations().without(t@),
            final(self).state() == state_without(old(self).state(), t@),
            !old(self)@.contains(t@) ==> *final(self) == *old(self),
    {
        self.erase(t);
    }

    /// The graph that holds exactly the given triples.
    pub fn from(triples: Vec<Triple>) -> (r: Self)
        ensures
            r.wf(),
            r@ == triples.deep_view().to_set(),
    {
        let mut g = Self::new();
        let mut n: usize = 0;
        proof {
            assert(triples.deep_view().take(0).to_set() =~= Set::<Fact>::empty());
        }
        while n < triples.len()
            invariant
                n <= triples@.len(),
                g.wf(),
                g@ == triples.deep_view().take(n as int).to_set(),
            decreases triples@.len() - n,
        {
            g.add((triples[n].0.clone(), triples[n].1.clone(), triples[n].2.clone()));
            proof {
                let all = triples.deep_view();
                assert(all.take(n + 1) =~= all.take(n as int).push(all[n as int]));
                all.take(n as int).lemma_push_to_set_commute(all[n as int]);
            }
            n += 1;
        }
        proof {
            assert(triples.deep_view().take(n as int) =~= triples.deep_view());
        }
        g
    }

    /// Stores every one of the given triples.
    pub fn insert_all(&mut self, triples: &Vec<Triple>)
        requires
            old(self).wf(),
        ensures
            final(self).wf(),
            final(self)@ == old(self)@.union(triples.deep_view().to_set()),
    {
        let mut n: usize = 0;
        proof {
            assert(triples.deep_view().take(0).to_set() =~= Set::<Fact>::empty());
            assert(self@ =~= old(self)@.union(Set::<Fact>::empty()));
        }
        while n < triples.len()
            invariant
                n <= triples@.len(),
                self.wf(),
                self@ == old(self)@.union(triples.deep_view().take(n as int).to_set()),
            decreases triples@.len() - n,
        {
            let ghost before = self@;
            self.add((triples[n].0.clone(), triples[n].1.clone(), triples[n].2.clone()));
            proof {
                let all = triples.deep_view();
                assert(all.take(n + 1) =~= all.take(n as int).push(all[n as int]));
                all.take(n as int).lemma_push_to_set_commute(all[n as int]);
                assert(self@ =~= old(self)@.union(all.take(n + 1).to_set()));
            }
            n += 1;
        }
        proof {
            assert(triples.deep_view().take(n as int) =~= triples.deep_view());
        }
    }

    /// Removes every one of the given triples.
    pub fn remove_all(&mut self, triples: &Vec<Triple>)
        requires
            old(self).wf(),
        ensures
            final(self).wf(),
            final(self)@ == old(self)@.difference(triples.deep_view().to_set()),
    {
        let mut n: usize = 0;
        proof {
            assert(triples.deep_view().take(0).to_set() =~= Set::<Fact>::empty());
            assert(self@ =~= old(self)@.difference(Set::<Fact>::empty()));
        }
        while n < triples.len()
            invariant
                n <= triples@.len(),
                self.wf(),
                self@ == old(self)@.difference(triples.deep_view().take(n as int).to_set()),
            decreases triples@.len() - n,
        {
            self.erase(&triples[n]);
            proof {
                let all = triples.deep_view();
                assert(all.take(n + 1) =~= all.take(n as int).push(all[n as int]));
                all.take(n as int).lemma_push_to_set_commute(all[n as int]);
                assert(self@ =~= old(self)@.difference(all.take(n + 1).to_set()));
            }
            n += 1;
        }
        proof {
            assert(triples.deep_view().take(n as int) =~= triples.deep_view());
        }
    }

    /// What a pattern is answered with, in order: the lookup in the rotation
    /// in which the bound positions lead, each triple read back as (subject,
    /// predicate, object). Subject and object lead in the object-first
    /// rotation, predicate and object in the predicate-first one; a predicate
    /// alone leads in the predicate-first rotation and an object alone in the
    /// object-first one; every other pattern is answered subject-first.
    pub open spec fn lookup(&self, p: Pattern) -> Seq<Fact> {
        match p {
            (Some(s), None, Some(o)) => ordered_rows(self.osp.lookup((Some(o), Some(s), None)), TOrder::OSP),
            (None, Some(pr), Some(o)) => ordered_rows(self.pos.lookup((Some(pr), Some(o), None)), TOrder::POS),
            (None, Some(pr), None) => ordered_rows(self.pos.lookup((Some(pr), None, None)), TOrder::POS),
            (None, None, Some(o)) => ordered_rows(self.osp.lookup((Some(o), None, None)), TOrder::OSP),
            _ => self.spo.lookup(p),
        }
    }

    /// Answers a pattern with any combination of bound positions: the triples
    /// of the graph that agree with the pattern wherever it is bound, each once.
    /// The lookup goes to the rotation in which the bound positions lead.
    pub fn get_triple(&self, qt: &QueryTriple) -> (r: Vec<Triple>)
        requires
            self.wf(),
        ensures
            r.deep_view() == self.lookup(qt.deep_view()),
            r.deep_view().no_duplicates(),
            forall|f: Fact| #[trigger]
                r.deep_view().contains(f) <==> self@.contains(f) && pattern_matches(qt.deep_view(), f),
    {
        match (&qt.0, &qt.1, &qt.2) {
            (Some(s), None, Some(o)) => {
                let r = self.osp.get_ordered(&(Some(o.clone()), Some(s.clone()), None), &TOrder::OSP);
                proof {
                    lemma_decoded_answer(*self, r.deep_view(), qt.deep_view(), TOrder::OSP);
                }
                r
            },
            (None, Some(p), Some(o)) => {
                let r = self.pos.get_ordered(&(Some(p.clone()), Some(o.clone()), None), &TOrder::POS);
                proof {
                    lemma_decoded_answer(*self, r.deep_view(), qt.deep_view(), TOrder::POS);
                }
                r
            },
            (None, Some(p), None) => {
                let r = self.pos.get_ordered(&(Some(p.clone()), None, None), &TOrder::POS);
                proof {
                    lemma_decoded_answer(*self, r.deep_view(), qt.deep_view(), TOrder::POS);
                }
                r
            },
            (None, None, Some(o)) => {
                let r = self.osp.get_ordered(&(Some(o.clone()), None, None), &TOrder::OSP);
                proof {
                    lemma_decoded_answer(*self, r.deep_view(), qt.deep_view(), TOrder::OSP);
                }
                r
            },
            _ => self.spo.get_triple(qt),
        }
    }
}

/// The contents of the three rotations after a triple has been stored in each, in that rotation's order.
pub open spec fn state_with(s: (NestedView, NestedView, NestedView), f: Fact) -> (NestedView, NestedView, NestedView) {
    (added(s.0, f), added(s.1, as_pos(f)), added(s.2, as_osp(f)))
}

/// The contents of the three rotations after a triple has been removed from each, in that rotation's order.
pub open spec fn state_without(s: (NestedView, NestedView, NestedView), f: Fact) -> (
    NestedView,
    NestedView,
    NestedView,
) {
    (erased(s.0, f), erased(s.1, as_pos(f)), erased(s.2, as_osp(f)))
}

/// The pattern as the rotation `ord` has to be asked: its positions in that
/// rotation's order, with the last one open.
pub open spec fn rotated_pattern(
    p: (Option<Seq<char>>, Option<Seq<char>>, Option<Seq<char>>),
    ord: TOrder,
) -> (Option<Seq<char>>, Option<Seq<char>>, Option<Seq<char>>) {
    match ord {
        TOrder::POS => (p.1, p.2, p.0),
        TOrder::OSP => (p.2, p.0, p.1),
        _ => p,
    }
}

/// What a rotated index answers, read back, is what the graph holds of the pattern.
proof fn lemma_decoded_answer(
    g: Graph,
    rows: Seq<Fact>,
    p: (Option<Seq<char>>, Option<Seq<char>>, Option<Seq<char>>),
    ord: TOrder,
)
    requires
        g.wf(),
        ord == TOrder::POS || ord == TOrder::OSP,
        forall|f: Fact| #[trigger]
            rows.contains(f) <==> exists|h: Fact|
                (if ord == TOrder::POS {
                    g.pos
                } else {
                    g.osp
                })@.contains(h) && pattern_matches(rotated_pattern(p, ord), h) && #[trigger] to_spo(h, ord) == f,
    ensures
        forall|f: Fact| #[trigger] rows.contains(f) <==> g@.contains(f) && pattern_matches(p, f),
{
    let held = if ord == TOrder::POS {
        g.pos
    } else {
        g.osp
    }@;
    assert(decoded(held, ord) == g.spo@);
    assert forall|f: Fact| #[trigger] rows.contains(f) <==> g@.contains(f) && pattern_matches(p, f) by {
        let h0 = rotated(f, ord);
        assert(to_spo(h0, ord) == f);
        assert(decoded(held, ord).contains(f) <==> held.contains(h0));
        if rows.contains(f) {
            let h = choose|h: Fact|
                held.contains(h) && pattern_matches(rotated_pattern(p, ord), h) && #[trigger] to_spo(h, ord) == f;
            assert(h == h0);
        }
    }
}

/// Storing a triple keeps rotations that agree in agreement.
pub proof fn law_insert_keeps_agreement(r: Rotations, f: Fact)
    requires
        r.agree(),
    ensures
        r.with(f).agree(),
{
    let b = r.with(f);
    assert(decoded(b.pos, TOrder::POS) =~= b.spo) by {
        assert forall|x: Fact| decoded(b.pos, TOrder::POS).contains(x) <==> b.spo.contains(x) by {
            assert(decoded(r.pos, TOrder::POS).contains(x) <==> r.spo.contains(x));
        }
    }
    assert(decoded(b.osp, TOrder::OSP) =~= b.spo) by {
        assert forall|x: Fact| decoded(b.osp, TOrder::OSP).contains(x) <==> b.spo.contains(x) by {
            assert(decoded(r.osp, TOrder::OSP).contains(x) <==> r.spo.contains(x));
        }
    }
}

/// Removing a triple keeps rotations that agree in agreement.
pub proof fn law_erase_keeps_agreement(r: Rotations, f: Fact)
    requires
        r.agree(),
    ensures
        r.without(f).agree(),
{
    let b = r.without(f);
    assert(decoded(b.pos, TOrder::POS) =~= b.spo) by {
        assert forall|x: Fact| decoded(b.pos, TOrder::POS).contains(x) <==> b.spo.contains(x) by {
            assert(decoded(r.pos, TOrder::POS).contains(x) <==> r.spo.contains(x));
        }
    }
    assert(decoded(b.osp, TOrder::OSP) =~= b.spo) by {
        assert forall|x: Fact| decoded(b.osp, TOrder::OSP).contains(x) <==> b.spo.contains(x) by {
            assert(decoded(r.osp, TOrder::OSP).contains(x) <==> r.spo.contains(x));
        }
    }
}

} // verus!
