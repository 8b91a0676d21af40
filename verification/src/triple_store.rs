//! One index over triples: head, then mid, then the tails stored under them.

use vstd::prelude::*;
use crate::nested::{
    added, erased, law_added_when_held, law_erased_when_absent, lemma_head_added_nested, lemma_head_removed_nested,
    lemma_head_place, lemma_mid_added_nested, lemma_mid_place, lemma_mid_removed_nested, lemma_nested_of,
    lemma_tail_added_nested, lemma_tail_removed_nested, place_of, NestedView,
};
use crate::triple::{
    pattern_matches, position_matches, t_order, to_spo, Double, Fact, Pattern, QueryDouble, QueryTriple, TOrder,
    Triple,
};

verus! {

/// What one head holds: each mid with its tails.
pub type Mids = Vec<(String, Vec<String>)>;

/// A three-level index: every head with its mids, every mid with its tails.
/// No head, mid or tail occurs twice under its parent, and no head or mid is
/// kept without something under it.
#[derive(Clone, Debug, PartialEq)]
pub struct TripleStore(pub Vec<(String, Mids)>);

impl View for TripleStore {
    type V = Set<Fact>;

    /// The set of triples held, each in (head, mid, tail) order.
    open spec fn view(&self) -> Set<Fact> {
        Set::new(|f: Fact| self.holds(f))
    }
}

impl TripleStore {
    /// Whether (i, j, k) names a head, a mid under it and a tail under that.
    pub open spec fn in_range(&self, i: int, j: int, k: int) -> bool {
        &&& 0 <= i < self.0@.len()
        &&& 0 <= j < self.0@[i].1@.len()
        &&& 0 <= k < self.0@[i].1@[j].1@.len()
    }

    /// The triple found at head i, mid j, tail k.
    pub open spec fn cell(&self, i: int, j: int, k: int) -> Fact {
        (self.0@[i].0@, self.0@[i].1@[j].0@, self.0@[i].1@[j].1@[k]@)
    }

    /// Whether the triple is held somewhere in the index.
    pub open spec fn holds(&self, f: Fact) -> bool {
        exists|i: int, j: int, k: int| self.in_range(i, j, k) && #[trigger] self.cell(i, j, k) == f
    }

    /// The index invariant: keys are distinct at each level and nothing empty is kept.
    pub open spec fn wf(&self) -> bool {
        Self::heads_wf(self.0@)
    }

    /// The invariant on the heads: distinct, each with well-formed mids.
    pub open spec fn heads_wf(heads: Seq<(String, Mids)>) -> bool {
        &&& forall|i: int, i2: int|
            0 <= i < i2 < heads.len() ==> (#[trigger] heads[i]).0@ != (#[trigger] heads[i2]).0@
        &&& forall|i: int| 0 <= i < heads.len() ==> mids_wf((#[trigger] heads[i]).1@)
    }

    /// The contents of the index as nested values: each head with its mids,
    /// each mid with its tails, in the order in which they are kept.
    pub open spec fn nested(&self) -> NestedView {
        self.0.deep_view()
    }

    /// Every triple held, in the order in which the index lists them.
    pub open spec fn rows(&self) -> Seq<Fact> {
        head_rows(self.0@)
    }

    /// What a lookup by leading positions lists, in order: the triple itself
    /// where all three positions are bound and it is held; the triples under
    /// head and mid, or under the head, in the order of the listing; the whole
    /// listing where nothing is bound; and nothing where a position is bound
    /// behind an open one.
    pub open spec fn lookup(&self, p: Pattern) -> Seq<Fact> {
        match p {
            (Some(h), Some(m), Some(t)) => if self.holds((h, m, t)) {
                seq![(h, m, t)]
            } else {
                Seq::empty()
            },
            (Some(h), Some(m), None) => match place_of(self.nested(), h) {
                Some(i) => match place_of(self.nested()[i].1, m) {
                    Some(j) => tail_rows(h, m, self.0@[i].1@[j].1@),
                    None => Seq::empty(),
                },
                None => Seq::empty(),
            },
            (Some(h), None, None) => match place_of(self.nested(), h) {
                Some(i) => mid_rows(h, self.0@[i].1@),
                None => Seq::empty(),
            },
            (None, None, None) => self.rows(),
            _ => Seq::empty(),
        }
    }

    /// Whether some triple held has the head `h`.
    pub open spec fn has_head(&self, h: Seq<char>) -> bool {
        exists|m: Seq<char>, t: Seq<char>| self@.contains((h, m, t))
    }

    /// Whether some triple held has the head `h` and the mid `m`.
    pub open spec fn has_pair(&self, h: Seq<char>, m: Seq<char>) -> bool {
        exists|t: Seq<char>| self@.contains((h, m, t))
    }

    /// An index that holds nothing.
    pub fn new() -> (r: Self)
        ensures
            r.wf(),
            r@ == Set::<Fact>::empty(),
            r.0@.len() == 0,
    {
        let r = TripleStore(Vec::new());
        assert(r@ =~= Set::<Fact>::empty());
        r
    }
    /// Stores the triple. Heads and mids are made as needed; a triple that is
    /// already held changes nothing.
    pub fn add(&mut self, t: Triple)
        requires
            old(self).wf(),
        ensures
            final(self).wf(),
            final(self)@ == old(self)@.insert(t@),
            final(self).nested() == added(old(self).nested(), t@),
            old(self)@.contains(t@) ==> *final(self) == *old(self),
    {
        let (h, m, tl) = t;
        let ghost f: Fact = (h@, m@, tl@);
        match find_head(&self.0, &h) {
            Some(i) => {
                match find_mid(&self.0[i].1, &m) {
                    Some(j) => {
                        match find_tail(&self.0[i].1[j].1, &tl) {
                            Some(k) => {
                                proof {
                                    assert(self.in_range(i as int, j as int, k as int));
                                    assert(self.cell(i as int, j as int, k as int) == f);
                                    assert(self@ =~= old(self)@.insert(f));
                                    lemma_nested_of(*self);
                                    assert(self.holds(f));
                                    law_added_when_held(self.nested(), f);
                                }
                            },
                            None => {
                                proof {
                                    lemma_not_held(*self, f);
                                }
                                self.0[i].1[j].1.push(tl);
                                proof {
                                    lemma_tail_added(*old(self), *self, i as int, j as int, f);
                                    lemma_tail_added_nested(*old(self), *self, i as int, j as int, f);
                                }
                            },
                        }
                    },
                    None => {
                        proof {
                            lemma_not_held(*self, f);
                        }
                        let mut tails: Vec<String> = Vec::new();
                        tails.push(tl);
                        self.0[i].1.push((m, tails));
                        proof {
                            lemma_mid_added(*old(self), *self, i as int, f);
                            lemma_mid_added_nested(*old(self), *self, i as int, f);
                        }
                    },
                }
            },
            None => {
                proof {
                    lemma_not_held(*self, f);
                }
                let mut tails: Vec<String> = Vec::new();
                tails.push(tl);
                let mut mids: Mids = Vec::new();
                mids.push((m, tails));
                self.0.push((h, mids));
                proof {
                    lemma_head_added(*old(self), *self, f);
                    lemma_head_added_nested(*old(self), *self, f);
                }
            },
        }
    }
    /// Removes the triple if it is held. A mid left without tails goes with
    /// it, and so does a head left without mids.
    pub fn erase(&mut self, t: &Triple)
        requires
            old(self).wf(),
        ensures
            final(self).wf(),
            final(self)@ == old(self)@.remove(t@),
            final(self).nested() == erased(old(self).nested(), t@),
            !old(self)@.contains(t@) ==> *final(self) == *old(self),
    {
        let ghost f: Fact = t@;
        proof {
            if self.holds(f) {
                let (i, j, k) = choose|i: int, j: int, k: int|
                    self.in_range(i, j, k) && #[trigger] self.cell(i, j, k) == f;
                assert(self.0@[i].0@ == f.0 && self.0@[i].1@[j].0@ == f.1 && self.0@[i].1@[j].1@[k]@ == f.2);
            }
        }
        match find_head(&self.0, &t.0) {
            Some(i) => {
                match find_mid(&self.0[i].1, &t.1) {
                    Some(j) => {
                        match find_tail(&self.0[i].1[j].1, &t.2) {
                            Some(k) => {
                                self.0[i].1[j].1.remove(k);
                                if self.0[i].1[j].1.len() == 0 {
                                    self.0[i].1.remove(j);
                                    if self.0[i].1.len() == 0 {
                                        self.0.remove(i);
                                        proof {
                                            assert(self.0@ =~= old(self).0@.remove(i as int));
                                            lemma_head_removed(*old(self), *self, i as int, f);
                                            lemma_head_removed_nested(*old(self), *self, i as int, f);
                                        }
                                    } else {
                                        proof {
                                            assert(self.0@[i as int].1@ =~= old(self).0@[i as int].1@.remove(
                                                j as int,
                                            ));
                                            lemma_mid_removed(*old(self), *self, i as int, j as int, f);
                                            lemma_mid_removed_nested(*old(self), *self, i as int, j as int, f);
                                        }
                                    }
                                } else {
                                    proof {
                                        lemma_tail_removed(
                                            *old(self),
                                            *self,
                                            i as int,
                                            j as int,
                                            k as int,
                                            f,
                                        );
                                        lemma_tail_removed_nested(
                                            *old(self),
                                            *self,
                                            i as int,
                                            j as int,
                                            k as int,
                                            f,
                                        );
                                    }
                                }
                            },
                            None => {
                                proof {
                                    lemma_not_held(*self, f);
                                    lemma_nested_of(*self);
                                    law_erased_when_absent(self.nested(), f);
                                }
                            },
                        }
                    },
                    None => {
                        proof {
                            lemma_not_held(*self, f);
                            lemma_nested_of(*self);
                            law_erased_when_absent(self.nested(), f);
                        }
                    },
                }
            },
            None => {
                proof {
                    lemma_not_held(*self, f);
                    lemma_nested_of(*self);
                    law_erased_when_absent(self.nested(), f);
                }
            },
        }
    }
    /// Looks triples up by their leading positions. With head, mid and tail
    /// bound it tells whether the triple is held; with head and mid bound it
    /// lists the tails; with the head bound, the mids and tails; with nothing
    /// bound, everything. A pattern that binds a position behind an open one
    /// is answered with nothing: another rotation has to serve it.
    pub fn get_triple(&self, qt: &QueryTriple) -> (r: Vec<Triple>)
        requires
            self.wf(),
        ensures
            r.deep_view() == self.lookup(qt.deep_view()),
            r.deep_view().no_duplicates(),
            forall|f: Fact| #[trigger]
                r.deep_view().contains(f) <==> is_prefix_pattern(qt.deep_view()) && self@.contains(f)
                    && pattern_matches(qt.deep_view(), f),
    {
        let mut r: Vec<Triple> = Vec::new();
        let ghost p: Pattern = qt.deep_view();
        proof {
            assert(r.deep_view() =~= Seq::<Fact>::empty());
            lemma_rows_of_heads(*self);
            if qt.0 is Some {
                lemma_head_place(*self, qt.0->Some_0@);
            }
        }
        match (&qt.0, &qt.1, &qt.2) {
            (Some(h), Some(m), Some(t)) => {
                let ghost f: Fact = (h@, m@, t@);
                if let Some(i) = find_head(&self.0, h) {
                    if let Some(j) = find_mid(&self.0[i].1, m) {
                        if let Some(k) = find_tail(&self.0[i].1[j].1, t) {
                            r.push((h.clone(), m.clone(), t.clone()));
                            proof {
                                assert(r.deep_view() =~= seq![f]);
                                assert(self.in_range(i as int, j as int, k as int));
                                assert(self.cell(i as int, j as int, k as int) == f);
                            }
                        }
                    }
                }
                proof {
                    if r@.len() == 0 {
                        lemma_not_held(*self, f);
                    }
                    assert forall|x: Fact| #[trigger]
                        r.deep_view().contains(x) <==> self@.contains(x) && pattern_matches(p, x) by {
                        if r.deep_view().contains(x) {
                            assert(r.deep_view()[0] == f);
                        }
                        if self@.contains(x) && pattern_matches(p, x) {
                            assert(x == f);
                            assert(r.deep_view()[0] == f);
                        }
                    }
                }
            },
            (Some(h), Some(m), None) => {
                let ghost mut found = false;
                if let Some(i) = find_head(&self.0, h) {
                    proof {
                        lemma_mid_place(*self, i as int, m@);
                    }
                    if let Some(j) = find_mid(&self.0[i].1, m) {
                        push_tails(h, m, &self.0[i].1[j].1, &mut r);
                        proof {
                            found = true;
                            let tails = self.0@[i as int].1@[j as int].1@;
                            assert(r.deep_view() =~= tail_rows(h@, m@, tails));
                            lemma_tail_rows(h@, m@, tails);
                            assert(mids_wf(self.0@[i as int].1@));
                            assert(tails_wf(tails));
                            assert forall|x: Fact| #[trigger]
                                r.deep_view().contains(x) <==> self@.contains(x) && pattern_matches(p, x) by {
                                lemma_under_head(*self, i as int, x);
                                lemma_under_mid(self.0@[i as int].1@, j as int, x.1, x.2);
                            }
                        }
                    }
                }
                proof {
                    if !found {
                        assert forall|x: Fact| self@.contains(x) && pattern_matches(p, x) implies false by {
                            lemma_held_places(*self, x);
                        }
                    }
                }
            },
            (Some(h), None, None) => {
                let ghost mut found = false;
                if let Some(i) = find_head(&self.0, h) {
                    push_mids(h, &self.0[i].1, &mut r);
                    proof {
                        found = true;
                        let mids = self.0@[i as int].1@;
                        assert(r.deep_view() =~= mid_rows(h@, mids));
                        lemma_mid_rows(h@, mids);
                        assert forall|x: Fact| #[trigger]
                            r.deep_view().contains(x) <==> self@.contains(x) && pattern_matches(p, x) by {
                            lemma_under_head(*self, i as int, x);
                        }
                    }
                }
                proof {
                    if !found {
                        assert forall|x: Fact| self@.contains(x) && pattern_matches(p, x) implies false by {
                            lemma_held_places(*self, x);
                        }
                    }
                }
            },
            (None, None, None) => {
                push_heads(&self.0, &mut r);
                proof {
                    assert(r.deep_view() =~= self.rows());
                }
            },
            _ => {},
        }
        r
    }

    /// Looks triples up as `get_triple` does and hands each back in subject,
    /// predicate, object order, taking the index to hold them in the ordering `ord`.
    pub fn get_ordered(&self, qt: &QueryTriple, ord: &TOrder) -> (r: Vec<Triple>)
        requires
            self.wf(),
        ensures
            r.deep_view() == ordered_rows(self.lookup(qt.deep_view()), *ord),
            r.deep_view().no_duplicates(),
            forall|f: Fact| #[trigger]
                r.deep_view().contains(f) <==> exists|g: Fact|
                    is_prefix_pattern(qt.deep_view()) && self@.contains(g) && pattern_matches(
                        qt.deep_view(),
                        g,
                    ) && #[trigger] to_spo(g, *ord) == f,
    {
        let found = self.get_triple(qt);
        let mut r: Vec<Triple> = Vec::new();
        let mut n: usize = 0;
        proof {
            assert(r.deep_view() =~= ordered_rows(found.deep_view().take(0), *ord));
        }
        while n < found.len()
            invariant
                n <= found@.len(),
                r.deep_view() == ordered_rows(found.deep_view().take(n as int), *ord),
            decreases found@.len() - n,
        {
            let ghost prev = r.deep_view();
            let t = (found[n].0.clone(), found[n].1.clone(), found[n].2.clone());
            r.push(t_order(t, ord));
            proof {
                assert(r.deep_view() =~= prev.push(to_spo(found.deep_view()[n as int], *ord)));
                assert(r.deep_view() =~= ordered_rows(found.deep_view().take(n + 1), *ord));
            }
            n += 1;
        }
        proof {
            assert(found.deep_view().take(n as int) =~= found.deep_view());
            lemma_ordered_rows(found.deep_view(), *ord);
        }
        r
    }

    /// Lists the heads that the pattern admits, each once.
    pub fn get_single(&self, q: &Option<String>) -> (r: Vec<String>)
        requires
            self.wf(),
        ensures
            r.deep_view().no_duplicates(),
            forall|h: Seq<char>| #[trigger]
                r.deep_view().contains(h) <==> position_matches(q.deep_view(), h) && self.has_head(h),
    {
        let mut r: Vec<String> = Vec::new();
        match q {
            Some(h) => {
                if let Some(i) = find_head(&self.0, h) {
                    r.push(h.clone());
                    proof {
                        assert(r.deep_view() =~= seq![h@]);
                        lemma_head_key(*self, i as int);
                    }
                } else {
                    proof {
                        assert(r.deep_view() =~= Seq::<Seq<char>>::empty());
                        assert forall|i: int| 0 <= i < self.0@.len() implies (#[trigger] self.0@[i]).0@ != h@ by {}
                        lemma_head_keys(*self);
                    }
                }
                proof {
                    assert forall|x: Seq<char>| #[trigger]
                        r.deep_view().contains(x) <==> position_matches(q.deep_view(), x) && self.has_head(
                            x,
                        ) by {
                        if r.deep_view().contains(x) {
                            assert(r.deep_view()[0] == h@);
                        }
                        if x == h@ && self.has_head(x) {
                            assert(r.deep_view()[0] == x);
                        }
                    }
                }
            },
            None => {
                let mut i: usize = 0;
                while i < self.0.len()
                    invariant
                        i <= self.0@.len(),
                        r.deep_view() =~= Seq::new(i as nat, |x: int| self.0@[x].0@),
                    decreases self.0@.len() - i,
                {
                    let ghost prev = r.deep_view();
                    r.push(self.0[i].0.clone());
                    proof {
                        assert(r.deep_view() =~= prev.push(self.0@[i as int].0@));
                    }
                    i += 1;
                }
                proof {
                    lemma_head_keys(*self);
                    let keys = r.deep_view();
                    assert forall|x: Seq<char>| #[trigger] keys.contains(x) <==> self.has_head(x) by {
                        if keys.contains(x) {
                            let n = choose|n: int| 0 <= n < keys.len() && keys[n] == x;
                            assert(self.0@[n].0@ == x);
                        }
                        if heads_have(self.0@, x) {
                            let n = choose|n: int| 0 <= n < self.0@.len() && (#[trigger] self.0@[n]).0@ == x;
                            assert(keys[n] == x);
                        }
                    }
                }
            },
        }
        r
    }

    /// Lists the pairs of head and mid that the pattern admits, each once.
    pub fn get_double(&self, qd: &QueryDouble) -> (r: Vec<Double>)
        requires
            self.wf(),
        ensures
            r.deep_view().no_duplicates(),
            forall|d: (Seq<char>, Seq<char>)| #[trigger]
                r.deep_view().contains(d) <==> position_matches(qd.0.deep_view(), d.0) && position_matches(
                    qd.1.deep_view(),
                    d.1,
                ) && self.has_pair(d.0, d.1),
    {
        let mut r: Vec<Double> = Vec::new();
        proof {
            assert(r.deep_view() =~= Seq::<(Seq<char>, Seq<char>)>::empty());
            lemma_pair_keys(*self);
        }
        match &qd.0 {
            Some(h) => {
                if let Some(i) = find_head(&self.0, h) {
                    push_pairs(&self.0[i].0, &self.0[i].1, &qd.1, &mut r);
                    proof {
                        assert(r.deep_view() =~= pair_rows(self.0@[i as int].0@, self.0@[i as int].1@, qd.1.deep_view()));
                        lemma_pair_rows(self.0@[i as int].0@, self.0@[i as int].1@, qd.1.deep_view());
                        assert forall|d: (Seq<char>, Seq<char>)| #[trigger]
                            r.deep_view().contains(d) <==> position_matches(qd.0.deep_view(), d.0)
                                && position_matches(qd.1.deep_view(), d.1) && self.has_pair(d.0, d.1) by {
                            if d.0 == h@ && heads_have_pair(self.0@, d.0, d.1) {
                                let i2 = choose|i2: int|
                                    0 <= i2 < self.0@.len() && (#[trigger] self.0@[i2]).0@ == d.0 && mids_have(
                                        self.0@[i2].1@,
                                        d.1,
                                    );
                                if i2 < i {
                                    assert(self.0@[i2].0@ != self.0@[i as int].0@);
                                }
                                if i < i2 {
                                    assert(self.0@[i as int].0@ != self.0@[i2].0@);
                                }
                            }
                        }
                    }
                }
            },
            None => {
                let mut i: usize = 0;
                while i < self.0.len()
                    invariant
                        i <= self.0@.len(),
                        self.wf(),
                        r.deep_view().no_duplicates(),
                        forall|d: (Seq<char>, Seq<char>)| #[trigger]
                            r.deep_view().contains(d) <==> position_matches(qd.1.deep_view(), d.1)
                                && heads_have_pair(self.0@.take(i as int), d.0, d.1),
                    decreases self.0@.len() - i,
                {
                    let ghost prev = r.deep_view();
                    push_pairs(&self.0[i].0, &self.0[i].1, &qd.1, &mut r);
                    proof {
                        let h = self.0@[i as int].0@;
                        let mids = self.0@[i as int].1@;
                        let fresh = pair_rows(h, mids, qd.1.deep_view());
                        lemma_pair_rows(h, mids, qd.1.deep_view());
                        let before = self.0@.take(i as int);
                        let after = self.0@.take(i + 1);
                        assert forall|x: int, y: int| 0 <= x < prev.len() && 0 <= y < fresh.len() implies prev[x]
                            != fresh[y] by {
                            assert(prev.contains(prev[x]));
                            assert(fresh.contains(fresh[y]));
                            let i2 = choose|i2: int|
                                0 <= i2 < before.len() && (#[trigger] before[i2]).0@ == prev[x].0 && mids_have(
                                    before[i2].1@,
                                    prev[x].1,
                                );
                            assert(before[i2] == self.0@[i2]);
                            assert(self.0@[i2].0@ != self.0@[i as int].0@);
                        }
                        vstd::seq_lib::lemma_no_dup_in_concat(prev, fresh);
                        assert forall|d: (Seq<char>, Seq<char>)| #[trigger]
                            r.deep_view().contains(d) <==> position_matches(qd.1.deep_view(), d.1)
                                && heads_have_pair(after, d.0, d.1) by {
                            vstd::seq_lib::lemma_seq_concat_contains_all_elements(prev, fresh, d);
                            if heads_have_pair(before, d.0, d.1) {
                                let i2 = choose|i2: int|
                                    0 <= i2 < before.len() && (#[trigger] before[i2]).0@ == d.0 && mids_have(
                                        before[i2].1@,
                                        d.1,
                                    );
                                assert(after[i2] == before[i2]);
                            }
                            if fresh.contains(d) {
                                assert(after[i as int] == self.0@[i as int]);
                            }
                            if heads_have_pair(after, d.0, d.1) {
                                let i2 = choose|i2: int|
                                    0 <= i2 < after.len() && (#[trigger] after[i2]).0@ == d.0 && mids_have(
                                        after[i2].1@,
                                        d.1,
                                    );
                                if i2 < i {
                                    assert(before[i2] == after[i2]);
                                }
                            }
                        }
                    }
                    i += 1;
                }
                proof {
                    assert(self.0@.take(i as int) =~= self.0@);
                }
            },
        }
        r
    }

    /// Removes one triple and stores another.
    pub fn replace(&mut self, old_t: &Triple, new_t: Triple)
        requires
            old(self).wf(),
        ensures
            final(self).wf(),
            final(self)@ == old(self)@.remove(old_t@).insert(new_t@),
            final(self).nested() == added(erased(old(self).nested(), old_t@), new_t@),
    {
        self.erase(old_t);
        self.add(new_t);
    }
}

/// The triples under one head and mid, in the order of the tails.
pub open spec fn tail_rows(h: Seq<char>, m: Seq<char>, tails: Seq<String>) -> Seq<Fact> {
    Seq::new(tails.len(), |k: int| (h, m, tails[k]@))
}

/// The triples under one head: those of its first mid, then of its second, and so on.
pub open spec fn mid_rows(h: Seq<char>, mids: Seq<(String, Vec<String>)>) -> Seq<Fact>
    decreases mids.len(),
{
    if mids.len() == 0 {
        Seq::empty()
    } else {
        mid_rows(h, mids.drop_last()) + tail_rows(h, mids.last().0@, mids.last().1@)
    }
}

/// Every triple of an index: those of its first head, then of its second, and so on.
pub open spec fn head_rows(heads: Seq<(String, Mids)>) -> Seq<Fact>
    decreases heads.len(),
{
    if heads.len() == 0 {
        Seq::empty()
    } else {
        head_rows(heads.drop_last()) + mid_rows(heads.last().0@, heads.last().1@)
    }
}

/// Whether the bound positions of a pattern are its leading ones, which is what
/// one index can answer by itself.
pub open spec fn is_prefix_pattern(p: Pattern) -> bool {
    &&& p.1 is Some ==> p.0 is Some
    &&& p.2 is Some ==> p.1 is Some
}

/// Whether some tail of `tails` reads `t`.
pub open spec fn tails_hold(tails: Seq<String>, t: Seq<char>) -> bool {
    exists|k: int| 0 <= k < tails.len() && (#[trigger] tails[k])@ == t
}

/// Whether `mids` has the mid `m` with the tail `t` under it.
pub open spec fn mids_hold(mids: Seq<(String, Vec<String>)>, m: Seq<char>, t: Seq<char>) -> bool {
    exists|j: int| 0 <= j < mids.len() && (#[trigger] mids[j]).0@ == m && tails_hold(mids[j].1@, t)
}

/// Whether `heads` has the head `h` with the mid `m` and the tail `t` under it.
pub open spec fn heads_hold(heads: Seq<(String, Mids)>, f: Fact) -> bool {
    exists|i: int| 0 <= i < heads.len() && (#[trigger] heads[i]).0@ == f.0 && mids_hold(heads[i].1@, f.1, f.2)
}

/// Whether `mids` has the mid `m`.
pub open spec fn mids_have(mids: Seq<(String, Vec<String>)>, m: Seq<char>) -> bool {
    exists|j: int| 0 <= j < mids.len() && (#[trigger] mids[j]).0@ == m
}

/// Whether `heads` has the head `h`.
pub open spec fn heads_have(heads: Seq<(String, Mids)>, h: Seq<char>) -> bool {
    exists|i: int| 0 <= i < heads.len() && (#[trigger] heads[i]).0@ == h
}

/// Whether `heads` has the head `h` with the mid `m` under it.
pub open spec fn heads_have_pair(heads: Seq<(String, Mids)>, h: Seq<char>, m: Seq<char>) -> bool {
    exists|i: int| 0 <= i < heads.len() && (#[trigger] heads[i]).0@ == h && mids_have(heads[i].1@, m)
}

/// The pairs of one head with each of its mids that `want` admits, in the order of the mids.
pub open spec fn pair_rows(h: Seq<char>, mids: Seq<(String, Vec<String>)>, want: Option<Seq<char>>) -> Seq<
    (Seq<char>, Seq<char>),
>
    decreases mids.len(),
{
    if mids.len() == 0 {
        Seq::empty()
    } else if position_matches(want, mids.last().0@) {
        pair_rows(h, mids.drop_last(), want).push((h, mids.last().0@))
    } else {
        pair_rows(h, mids.drop_last(), want)
    }
}

/// Each element put back into subject, predicate, object order.
pub open spec fn ordered_rows(rows: Seq<Fact>, ord: TOrder) -> Seq<Fact> {
    Seq::new(rows.len(), |i: int| to_spo(rows[i], ord))
}

/// The position of the head `h`, if the index has it.
fn find_head(heads: &Vec<(String, Mids)>, h: &String) -> (r: Option<usize>)
    ensures
        match r {
            Some(i) => i < heads@.len() && heads@[i as int].0@ == h@,
            None => forall|i: int| 0 <= i < heads@.len() ==> (#[trigger] heads@[i]).0@ != h@,
        },
{
    let mut i: usize = 0;
    while i < heads.len()
        invariant
            i <= heads@.len(),
            forall|i2: int| 0 <= i2 < i ==> (#[trigger] heads@[i2]).0@ != h@,
        decreases heads@.len() - i,
    {
        if heads[i].0 == *h {
            return Some(i);
        }
        i += 1;
    }
    None
}

/// The position of the mid `m` among one head's mids, if it is there.
fn find_mid(mids: &Mids, m: &String) -> (r: Option<usize>)
    ensures
        match r {
            Some(j) => j < mids@.len() && mids@[j as int].0@ == m@,
            None => forall|j: int| 0 <= j < mids@.len() ==> (#[trigger] mids@[j]).0@ != m@,
        },
{
    let mut j: usize = 0;
    while j < mids.len()
        invariant
            j <= mids@.len(),
            forall|j2: int| 0 <= j2 < j ==> (#[trigger] mids@[j2]).0@ != m@,
        decreases mids@.len() - j,
    {
        if mids[j].0 == *m {
            return Some(j);
        }
        j += 1;
    }
    None
}

/// The position of the tail `t` among one mid's tails, if it is there.
fn find_tail(tails: &Vec<String>, t: &String) -> (r: Option<usize>)
    ensures
        match r {
            Some(k) => k < tails@.len() && tails@[k as int]@ == t@,
            None => forall|k: int| 0 <= k < tails@.len() ==> (#[trigger] tails@[k])@ != t@,
        },
{
    let mut k: usize = 0;
    while k < tails.len()
        invariant
            k <= tails@.len(),
            forall|k2: int| 0 <= k2 < k ==> (#[trigger] tails@[k2])@ != t@,
        decreases tails@.len() - k,
    {
        if tails[k] == *t {
            return Some(k);
        }
        k += 1;
    }
    None
}


/// A tail pushed under an existing head and mid adds exactly that triple.
proof fn lemma_tail_added(a: TripleStore, b: TripleStore, i: int, j: int, f: Fact)
    requires
        a.wf(),
        0 <= i < a.0@.len(),
        0 <= j < a.0@[i].1@.len(),
        a.0@[i].0@ == f.0,
        a.0@[i].1@[j].0@ == f.1,
        forall|k: int| 0 <= k < a.0@[i].1@[j].1@.len() ==> (#[trigger] a.0@[i].1@[j].1@[k])@ != f.2,
        b.0@.len() == a.0@.len(),
        forall|i2: int| 0 <= i2 < a.0@.len() && i2 != i ==> #[trigger] b.0@[i2] == a.0@[i2],
        b.0@[i].0 == a.0@[i].0,
        b.0@[i].1@.len() == a.0@[i].1@.len(),
        forall|j2: int| 0 <= j2 < a.0@[i].1@.len() && j2 != j ==> #[trigger] b.0@[i].1@[j2] == a.0@[i].1@[j2],
        b.0@[i].1@[j].0 == a.0@[i].1@[j].0,
        b.0@[i].1@[j].1@.len() == a.0@[i].1@[j].1@.len() + 1,
        forall|k: int| 0 <= k < a.0@[i].1@[j].1@.len() ==> #[trigger] b.0@[i].1@[j].1@[k] == a.0@[i].1@[j].1@[k],
        b.0@[i].1@[j].1@[a.0@[i].1@[j].1@.len() as int]@ == f.2,
    ensures
        b.wf(),
        b@ == a@.insert(f),
{
    let n = a.0@[i].1@[j].1@.len() as int;
    assert(tails_wf(a.0@[i].1@[j].1@)) by {
        assert(mids_wf(a.0@[i].1@));
    }
    assert(tails_wf(b.0@[i].1@[j].1@));
    assert(mids_wf(b.0@[i].1@)) by {
        assert(mids_wf(a.0@[i].1@));
        assert forall|j2: int| 0 <= j2 < b.0@[i].1@.len() implies tails_wf((#[trigger] b.0@[i].1@[j2]).1@) by {
            if j2 != j {
                assert(b.0@[i].1@[j2] == a.0@[i].1@[j2]);
            }
        }
        assert forall|j1: int, j2: int| 0 <= j1 < j2 < b.0@[i].1@.len() implies (#[trigger] b.0@[i].1@[j1]).0@ != (
        #[trigger] b.0@[i].1@[j2]).0@ by {
            assert(a.0@[i].1@[j1].0@ != a.0@[i].1@[j2].0@);
        }
    }
    assert(b.wf()) by {
        assert forall|i2: int| 0 <= i2 < b.0@.len() implies mids_wf((#[trigger] b.0@[i2]).1@) by {
            if i2 != i {
                assert(b.0@[i2] == a.0@[i2]);
            }
        }
        assert forall|i1: int, i2: int| 0 <= i1 < i2 < b.0@.len() implies (#[trigger] b.0@[i1]).0@ != (
        #[trigger] b.0@[i2]).0@ by {
            assert(a.0@[i1].0@ != a.0@[i2].0@);
        }
    }
    assert forall|x: Fact| b.holds(x) <==> (a.holds(x) || x == f) by {
        if b.holds(x) {
            let (i2, j2, k2) = choose|i2: int, j2: int, k2: int|
                b.in_range(i2, j2, k2) && #[trigger] b.cell(i2, j2, k2) == x;
            if i2 == i && j2 == j && k2 == n {
                assert(x == f);
            } else {
                assert(a.in_range(i2, j2, k2));
                assert(a.cell(i2, j2, k2) == x);
            }
        }
        if a.holds(x) {
            let (i2, j2, k2) = choose|i2: int, j2: int, k2: int|
                a.in_range(i2, j2, k2) && #[trigger] a.cell(i2, j2, k2) == x;
            assert(b.in_range(i2, j2, k2));
            assert(b.cell(i2, j2, k2) == x);
        }
        if x == f {
            assert(b.in_range(i, j, n));
            assert(b.cell(i, j, n) == x);
        }
    }
    assert(b@ =~= a@.insert(f));
}

/// A mid pushed with one tail under an existing head adds exactly that triple.
proof fn lemma_mid_added(a: TripleStore, b: TripleStore, i: int, f: Fact)
    requires
        a.wf(),
        0 <= i < a.0@.len(),
        a.0@[i].0@ == f.0,
        forall|j: int| 0 <= j < a.0@[i].1@.len() ==> (#[trigger] a.0@[i].1@[j]).0@ != f.1,
        b.0@.len() == a.0@.len(),
        forall|i2: int| 0 <= i2 < a.0@.len() && i2 != i ==> #[trigger] b.0@[i2] == a.0@[i2],
        b.0@[i].0 == a.0@[i].0,
        b.0@[i].1@.len() == a.0@[i].1@.len() + 1,
        forall|j2: int| 0 <= j2 < a.0@[i].1@.len() ==> #[trigger] b.0@[i].1@[j2] == a.0@[i].1@[j2],
        b.0@[i].1@[a.0@[i].1@.len() as int].0@ == f.1,
        b.0@[i].1@[a.0@[i].1@.len() as int].1@.len() == 1,
        b.0@[i].1@[a.0@[i].1@.len() as int].1@[0]@ == f.2,
    ensures
        b.wf(),
        b@ == a@.insert(f),
{
    let n = a.0@[i].1@.len() as int;
    assert(mids_wf(a.0@[i].1@));
    assert(tails_wf(b.0@[i].1@[n].1@));
    assert(mids_wf(b.0@[i].1@)) by {
        assert forall|j2: int| 0 <= j2 < b.0@[i].1@.len() implies tails_wf((#[trigger] b.0@[i].1@[j2]).1@) by {
            if j2 != n {
                assert(b.0@[i].1@[j2] == a.0@[i].1@[j2]);
            }
        }
        assert forall|j1: int, j2: int| 0 <= j1 < j2 < b.0@[i].1@.len() implies (#[trigger] b.0@[i].1@[j1]).0@ != (
        #[trigger] b.0@[i].1@[j2]).0@ by {
            assert(b.0@[i].1@[j1] == a.0@[i].1@[j1]);
            if j2 != n {
                assert(a.0@[i].1@[j1].0@ != a.0@[i].1@[j2].0@);
            }
        }
    }
    assert(b.wf()) by {
        assert forall|i2: int| 0 <= i2 < b.0@.len() implies mids_wf((#[trigger] b.0@[i2]).1@) by {
            if i2 != i {
                assert(b.0@[i2] == a.0@[i2]);
            }
        }
        assert forall|i1: int, i2: int| 0 <= i1 < i2 < b.0@.len() implies (#[trigger] b.0@[i1]).0@ != (
        #[trigger] b.0@[i2]).0@ by {
            assert(a.0@[i1].0@ != a.0@[i2].0@);
        }
    }
    assert forall|x: Fact| b.holds(x) <==> (a.holds(x) || x == f) by {
        if b.holds(x) {
            let (i2, j2, k2) = choose|i2: int, j2: int, k2: int|
                b.in_range(i2, j2, k2) && #[trigger] b.cell(i2, j2, k2) == x;
            if i2 == i && j2 == n {
                assert(x == f);
            } else {
                assert(a.in_range(i2, j2, k2));
                assert(a.cell(i2, j2, k2) == x);
            }
        }
        if a.holds(x) {
            let (i2, j2, k2) = choose|i2: int, j2: int, k2: int|
                a.in_range(i2, j2, k2) && #[trigger] a.cell(i2, j2, k2) == x;
            assert(b.in_range(i2, j2, k2));
            assert(b.cell(i2, j2, k2) == x);
        }
        if x == f {
            assert(b.in_range(i, n, 0));
            assert(b.cell(i, n, 0) == x);
        }
    }
    assert(b@ =~= a@.insert(f));
}

/// A head pushed with one mid and one tail adds exactly that triple.
proof fn lemma_head_added(a: TripleStore, b: TripleStore, f: Fact)
    requires
        a.wf(),
        forall|i: int| 0 <= i < a.0@.len() ==> (#[trigger] a.0@[i]).0@ != f.0,
        b.0@.len() == a.0@.len() + 1,
        forall|i2: int| 0 <= i2 < a.0@.len() ==> #[trigger] b.0@[i2] == a.0@[i2],
        b.0@[a.0@.len() as int].0@ == f.0,
        b.0@[a.0@.len() as int].1@.len() == 1,
        b.0@[a.0@.len() as int].1@[0].0@ == f.1,
        b.0@[a.0@.len() as int].1@[0].1@.len() == 1,
        b.0@[a.0@.len() as int].1@[0].1@[0]@ == f.2,
    ensures
        b.wf(),
        b@ == a@.insert(f),
{
    let n = a.0@.len() as int;
    assert(tails_wf(b.0@[n].1@[0].1@));
    assert(mids_wf(b.0@[n].1@));
    assert(b.wf()) by {
        assert forall|i2: int| 0 <= i2 < b.0@.len() implies mids_wf((#[trigger] b.0@[i2]).1@) by {
            if i2 != n {
                assert(b.0@[i2] == a.0@[i2]);
            }
        }
        assert forall|i1: int, i2: int| 0 <= i1 < i2 < b.0@.len() implies (#[trigger] b.0@[i1]).0@ != (
        #[trigger] b.0@[i2]).0@ by {
            assert(b.0@[i1] == a.0@[i1]);
            if i2 != n {
                assert(a.0@[i1].0@ != a.0@[i2].0@);
            }
        }
    }
    assert forall|x: Fact| b.holds(x) <==> (a.holds(x) || x == f) by {
        if b.holds(x) {
            let (i2, j2, k2) = choose|i2: int, j2: int, k2: int|
                b.in_range(i2, j2, k2) && #[trigger] b.cell(i2, j2, k2) == x;
            if i2 == n {
                assert(x == f);
            } else {
                assert(a.in_range(i2, j2, k2));
                assert(a.cell(i2, j2, k2) == x);
            }
        }
        if a.holds(x) {
            let (i2, j2, k2) = choose|i2: int, j2: int, k2: int|
                a.in_range(i2, j2, k2) && #[trigger] a.cell(i2, j2, k2) == x;
            assert(b.in_range(i2, j2, k2));
            assert(b.cell(i2, j2, k2) == x);
        }
        if x == f {
            assert(b.in_range(n, 0, 0));
            assert(b.cell(n, 0, 0) == x);
        }
    }
    assert(b@ =~= a@.insert(f));
}


/// In a well-formed index a triple is found at one place only.
pub proof fn lemma_one_place(a: TripleStore, i: int, j: int, k: int, i2: int, j2: int, k2: int)
    requires
        a.wf(),
        a.in_range(i, j, k),
        a.in_range(i2, j2, k2),
        a.cell(i, j, k) == a.cell(i2, j2, k2),
    ensures
        i == i2,
        j == j2,
        k == k2,
{
    if i != i2 {
        if i < i2 {
            assert(a.0@[i].0@ != a.0@[i2].0@);
        } else {
            assert(a.0@[i2].0@ != a.0@[i].0@);
        }
    }
    assert(mids_wf(a.0@[i].1@));
    if j != j2 {
        if j < j2 {
            assert(a.0@[i].1@[j].0@ != a.0@[i].1@[j2].0@);
        } else {
            assert(a.0@[i].1@[j2].0@ != a.0@[i].1@[j].0@);
        }
    }
    assert(tails_wf(a.0@[i].1@[j].1@));
    if k != k2 {
        if k < k2 {
            assert(a.0@[i].1@[j].1@[k]@ != a.0@[i].1@[j].1@[k2]@);
        } else {
            assert(a.0@[i].1@[j].1@[k2]@ != a.0@[i].1@[j].1@[k]@);
        }
    }
}

/// A triple whose head, mid or tail is missing where it would have to be is not held.
proof fn lemma_not_held(a: TripleStore, f: Fact)
    requires
        a.wf(),
        forall|i: int, j: int, k: int|
            a.in_range(i, j, k) && a.0@[i].0@ == f.0 && a.0@[i].1@[j].0@ == f.1 ==> (
            #[trigger] a.0@[i].1@[j].1@[k])@ != f.2,
    ensures
        !a.holds(f),
        a@ == a@.remove(f),
{
    if a.holds(f) {
        let (i, j, k) = choose|i: int, j: int, k: int| a.in_range(i, j, k) && #[trigger] a.cell(i, j, k) == f;
        assert(a.0@[i].1@[j].1@[k]@ != f.2);
    }
    assert(a@ =~= a@.remove(f));
}

/// Taking one of several tails away removes exactly that triple.
proof fn lemma_tail_removed(a: TripleStore, b: TripleStore, i: int, j: int, k: int, f: Fact)
    requires
        a.wf(),
        a.in_range(i, j, k),
        a.cell(i, j, k) == f,
        b.0@.len() == a.0@.len(),
        forall|i2: int| 0 <= i2 < a.0@.len() && i2 != i ==> #[trigger] b.0@[i2] == a.0@[i2],
        b.0@[i].0 == a.0@[i].0,
        b.0@[i].1@.len() == a.0@[i].1@.len(),
        forall|j2: int| 0 <= j2 < a.0@[i].1@.len() && j2 != j ==> #[trigger] b.0@[i].1@[j2] == a.0@[i].1@[j2],
        b.0@[i].1@[j].0 == a.0@[i].1@[j].0,
        b.0@[i].1@[j].1@ == a.0@[i].1@[j].1@.remove(k),
        b.0@[i].1@[j].1@.len() > 0,
    ensures
        b.wf(),
        b@ == a@.remove(f),
{
    let at = a.0@[i].1@[j].1@;
    let bt = b.0@[i].1@[j].1@;
    assert(mids_wf(a.0@[i].1@));
    assert(tails_wf(at));
    assert(tails_wf(bt)) by {
        assert forall|k1: int, k2: int| 0 <= k1 < k2 < bt.len() implies (#[trigger] bt[k1])@ != (
        #[trigger] bt[k2])@ by {
            let a1 = if k1 < k { k1 } else { k1 + 1 };
            let a2 = if k2 < k { k2 } else { k2 + 1 };
            assert(at[a1]@ != at[a2]@);
        }
    }
    assert(mids_wf(b.0@[i].1@)) by {
        assert forall|j2: int| 0 <= j2 < b.0@[i].1@.len() implies tails_wf((#[trigger] b.0@[i].1@[j2]).1@) by {
            if j2 != j {
                assert(b.0@[i].1@[j2] == a.0@[i].1@[j2]);
            }
        }
        assert forall|j1: int, j2: int| 0 <= j1 < j2 < b.0@[i].1@.len() implies (#[trigger] b.0@[i].1@[j1]).0@ != (
        #[trigger] b.0@[i].1@[j2]).0@ by {
            assert(a.0@[i].1@[j1].0@ != a.0@[i].1@[j2].0@);
        }
    }
    assert(b.wf()) by {
        assert forall|i2: int| 0 <= i2 < b.0@.len() implies mids_wf((#[trigger] b.0@[i2]).1@) by {
            if i2 != i {
                assert(b.0@[i2] == a.0@[i2]);
            }
        }
        assert forall|i1: int, i2: int| 0 <= i1 < i2 < b.0@.len() implies (#[trigger] b.0@[i1]).0@ != (
        #[trigger] b.0@[i2]).0@ by {
            assert(a.0@[i1].0@ != a.0@[i2].0@);
        }
    }
    assert forall|x: Fact| b.holds(x) <==> (a.holds(x) && x != f) by {
        if b.holds(x) {
            let (i2, j2, k2) = choose|i2: int, j2: int, k2: int|
                b.in_range(i2, j2, k2) && #[trigger] b.cell(i2, j2, k2) == x;
            let k3 = if i2 == i && j2 == j && k2 >= k { k2 + 1 } else { k2 };
            assert(a.in_range(i2, j2, k3));
            assert(a.cell(i2, j2, k3) == x);
            if x == f {
                lemma_one_place(a, i, j, k, i2, j2, k3);
            }
        }
        if a.holds(x) && x != f {
            let (i2, j2, k2) = choose|i2: int, j2: int, k2: int|
                a.in_range(i2, j2, k2) && #[trigger] a.cell(i2, j2, k2) == x;
            let k3 = if i2 == i && j2 == j && k2 > k { k2 - 1 } else { k2 };
            assert(b.in_range(i2, j2, k3));
            assert(b.cell(i2, j2, k3) == x);
        }
    }
    assert(b@ =~= a@.remove(f));
}

/// Taking away a mid that held one tail only, where the head has other mids,
/// removes exactly that triple.
proof fn lemma_mid_removed(a: TripleStore, b: TripleStore, i: int, j: int, f: Fact)
    requires
        a.wf(),
        a.in_range(i, j, 0),
        a.cell(i, j, 0) == f,
        a.0@[i].1@[j].1@.len() == 1,
        b.0@.len() == a.0@.len(),
        forall|i2: int| 0 <= i2 < a.0@.len() && i2 != i ==> #[trigger] b.0@[i2] == a.0@[i2],
        b.0@[i].0 == a.0@[i].0,
        b.0@[i].1@ == a.0@[i].1@.remove(j),
        b.0@[i].1@.len() > 0,
    ensures
        b.wf(),
        b@ == a@.remove(f),
{
    let am = a.0@[i].1@;
    let bm = b.0@[i].1@;
    assert(mids_wf(am));
    assert(mids_wf(bm)) by {
        assert forall|j2: int| 0 <= j2 < bm.len() implies tails_wf((#[trigger] bm[j2]).1@) by {
            let a2 = if j2 < j { j2 } else { j2 + 1 };
            assert(tails_wf(am[a2].1@));
        }
        assert forall|j1: int, j2: int| 0 <= j1 < j2 < bm.len() implies (#[trigger] bm[j1]).0@ != (
        #[trigger] bm[j2]).0@ by {
            let a1 = if j1 < j { j1 } else { j1 + 1 };
            let a2 = if j2 < j { j2 } else { j2 + 1 };
            assert(am[a1].0@ != am[a2].0@);
        }
    }
    assert(b.wf()) by {
        assert forall|i2: int| 0 <= i2 < b.0@.len() implies mids_wf((#[trigger] b.0@[i2]).1@) by {
            if i2 != i {
                assert(b.0@[i2] == a.0@[i2]);
            }
        }
        assert forall|i1: int, i2: int| 0 <= i1 < i2 < b.0@.len() implies (#[trigger] b.0@[i1]).0@ != (
        #[trigger] b.0@[i2]).0@ by {
            assert(a.0@[i1].0@ != a.0@[i2].0@);
        }
    }
    assert forall|x: Fact| b.holds(x) <==> (a.holds(x) && x != f) by {
        if b.holds(x) {
            let (i2, j2, k2) = choose|i2: int, j2: int, k2: int|
                b.in_range(i2, j2, k2) && #[trigger] b.cell(i2, j2, k2) == x;
            let j3 = if i2 == i && j2 >= j { j2 + 1 } else { j2 };
            assert(a.in_range(i2, j3, k2));
            assert(a.cell(i2, j3, k2) == x);
            if x == f {
                lemma_one_place(a, i, j, 0, i2, j3, k2);
            }
        }
        if a.holds(x) && x != f {
            let (i2, j2, k2) = choose|i2: int, j2: int, k2: int|
                a.in_range(i2, j2, k2) && #[trigger] a.cell(i2, j2, k2) == x;
            let j3 = if i2 == i && j2 > j { j2 - 1 } else { j2 };
            assert(b.in_range(i2, j3, k2));
            assert(b.cell(i2, j3, k2) == x);
        }
    }
    assert(b@ =~= a@.remove(f));
}

/// Taking away a head that held one mid with one tail removes exactly that triple.
proof fn lemma_head_removed(a: TripleStore, b: TripleStore, i: int, f: Fact)
    requires
        a.wf(),
        a.in_range(i, 0, 0),
        a.cell(i, 0, 0) == f,
        a.0@[i].1@.len() == 1,
        a.0@[i].1@[0].1@.len() == 1,
        b.0@ == a.0@.remove(i),
    ensures
        b.wf(),
        b@ == a@.remove(f),
{
    assert(b.wf()) by {
        assert forall|i2: int| 0 <= i2 < b.0@.len() implies mids_wf((#[trigger] b.0@[i2]).1@) by {
            let a2 = if i2 < i { i2 } else { i2 + 1 };
            assert(mids_wf(a.0@[a2].1@));
        }
        assert forall|i1: int, i2: int| 0 <= i1 < i2 < b.0@.len() implies (#[trigger] b.0@[i1]).0@ != (
        #[trigger] b.0@[i2]).0@ by {
            let a1 = if i1 < i { i1 } else { i1 + 1 };
            let a2 = if i2 < i { i2 } else { i2 + 1 };
            assert(a.0@[a1].0@ != a.0@[a2].0@);
        }
    }
    assert forall|x: Fact| b.holds(x) <==> (a.holds(x) && x != f) by {
        if b.holds(x) {
            let (i2, j2, k2) = choose|i2: int, j2: int, k2: int|
                b.in_range(i2, j2, k2) && #[trigger] b.cell(i2, j2, k2) == x;
            let i3 = if i2 >= i { i2 + 1 } else { i2 };
            assert(a.in_range(i3, j2, k2));
            assert(a.cell(i3, j2, k2) == x);
            if x == f {
                lemma_one_place(a, i, 0, 0, i3, j2, k2);
            }
        }
        if a.holds(x) && x != f {
            let (i2, j2, k2) = choose|i2: int, j2: int, k2: int|
                a.in_range(i2, j2, k2) && #[trigger] a.cell(i2, j2, k2) == x;
            let i3 = if i2 > i { i2 - 1 } else { i2 };
            assert(b.in_range(i3, j2, k2));
            assert(b.cell(i3, j2, k2) == x);
        }
    }
    assert(b@ =~= a@.remove(f));
}

/// Appends the triples of one head and mid to `out`, in the order of the tails.
fn push_tails(h: &String, m: &String, tails: &Vec<String>, out: &mut Vec<Triple>)
    ensures
        final(out).deep_view() == old(out).deep_view() + tail_rows(h@, m@, tails@),
{
    let ghost before = out.deep_view();
    let mut k: usize = 0;
    while k < tails.len()
        invariant
            k <= tails@.len(),
            out.deep_view() == before + tail_rows(h@, m@, tails@.take(k as int)),
        decreases tails@.len() - k,
    {
        let ghost prev = out.deep_view();
        out.push((h.clone(), m.clone(), tails[k].clone()));
        proof {
            assert(out.deep_view() =~= prev.push((h@, m@, tails@[k as int]@)));
            assert(tail_rows(h@, m@, tails@.take(k + 1)) =~= tail_rows(h@, m@, tails@.take(k as int)).push(
                (h@, m@, tails@[k as int]@),
            ));
            assert(out.deep_view() =~= before + tail_rows(h@, m@, tails@.take(k + 1)));
        }
        k += 1;
    }
    proof {
        assert(tails@.take(k as int) =~= tails@);
    }
}

/// Appends the triples of one head to `out`, mid by mid.
fn push_mids(h: &String, mids: &Mids, out: &mut Vec<Triple>)
    ensures
        final(out).deep_view() == old(out).deep_view() + mid_rows(h@, mids@),
{
    let ghost before = out.deep_view();
    let mut j: usize = 0;
    proof {
        assert(before + mid_rows(h@, mids@.take(0)) =~= before);
    }
    while j < mids.len()
        invariant
            j <= mids@.len(),
            out.deep_view() == before + mid_rows(h@, mids@.take(j as int)),
        decreases mids@.len() - j,
    {
        push_tails(h, &mids[j].0, &mids[j].1, out);
        proof {
            let next = mids@.take(j + 1);
            assert(next.drop_last() =~= mids@.take(j as int));
            assert(next.last() == mids@[j as int]);
            assert(out.deep_view() =~= before + mid_rows(h@, next));
        }
        j += 1;
    }
    proof {
        assert(mids@.take(j as int) =~= mids@);
    }
}

/// Appends every triple of an index to `out`, head by head.
pub(crate) fn push_heads(heads: &Vec<(String, Mids)>, out: &mut Vec<Triple>)
    ensures
        final(out).deep_view() == old(out).deep_view() + head_rows(heads@),
{
    let ghost before = out.deep_view();
    let mut i: usize = 0;
    proof {
        assert(before + head_rows(heads@.take(0)) =~= before);
    }
    while i < heads.len()
        invariant
            i <= heads@.len(),
            out.deep_view() == before + head_rows(heads@.take(i as int)),
        decreases heads@.len() - i,
    {
        push_mids(&heads[i].0, &heads[i].1, out);
        proof {
            let next = heads@.take(i + 1);
            assert(next.drop_last() =~= heads@.take(i as int));
            assert(next.last() == heads@[i as int]);
            assert(out.deep_view() =~= before + head_rows(heads@.take(i as int)) + mid_rows(
                heads@[i as int].0@,
                heads@[i as int].1@,
            ));
            assert(out.deep_view() =~= before + head_rows(next));
        }
        i += 1;
    }
    proof {
        assert(heads@.take(i as int) =~= heads@);
    }
}

/// What `tail_rows` holds, and that it holds nothing twice where no tail occurs twice.
pub proof fn lemma_tail_rows(h: Seq<char>, m: Seq<char>, tails: Seq<String>)
    ensures
        forall|f: Fact| #[trigger]
            tail_rows(h, m, tails).contains(f) <==> f.0 == h && f.1 == m && tails_hold(tails, f.2),
        (forall|k: int, k2: int| 0 <= k < k2 < tails.len() ==> (#[trigger] tails[k])@ != (#[trigger] tails[k2])@)
            ==> tail_rows(h, m, tails).no_duplicates(),
{
    let rows = tail_rows(h, m, tails);
    assert forall|f: Fact| #[trigger] rows.contains(f) <==> f.0 == h && f.1 == m && tails_hold(tails, f.2) by {
        if rows.contains(f) {
            let k = choose|k: int| 0 <= k < rows.len() && rows[k] == f;
            assert(tails[k]@ == f.2);
        }
        if f.0 == h && f.1 == m && tails_hold(tails, f.2) {
            let k = choose|k: int| 0 <= k < tails.len() && (#[trigger] tails[k])@ == f.2;
            assert(rows[k] == f);
        }
    }
}

/// What `mid_rows` holds, and that it holds nothing twice where the mids are well formed.
pub proof fn lemma_mid_rows(h: Seq<char>, mids: Seq<(String, Vec<String>)>)
    ensures
        forall|f: Fact| #[trigger] mid_rows(h, mids).contains(f) <==> f.0 == h && mids_hold(mids, f.1, f.2),
        mids_wf(mids) ==> mid_rows(h, mids).no_duplicates(),
    decreases mids.len(),
{
    if mids.len() > 0 {
        let front = mids.drop_last();
        let last = mids.last();
        let a = mid_rows(h, front);
        let b = tail_rows(h, last.0@, last.1@);
        lemma_mid_rows(h, front);
        lemma_tail_rows(h, last.0@, last.1@);
        assert forall|f: Fact| #[trigger] mid_rows(h, mids).contains(f) <==> f.0 == h && mids_hold(
            mids,
            f.1,
            f.2,
        ) by {
            vstd::seq_lib::lemma_seq_concat_contains_all_elements(a, b, f);
            if a.contains(f) {
                let j = choose|j: int|
                    0 <= j < front.len() && (#[trigger] front[j]).0@ == f.1 && tails_hold(front[j].1@, f.2);
                assert(mids[j] == front[j]);
            }
            if b.contains(f) {
                assert(mids[mids.len() - 1] == last);
            }
            if f.0 == h && mids_hold(mids, f.1, f.2) {
                let j = choose|j: int|
                    0 <= j < mids.len() && (#[trigger] mids[j]).0@ == f.1 && tails_hold(mids[j].1@, f.2);
                if j < front.len() {
                    assert(front[j] == mids[j]);
                    assert(mids_hold(front, f.1, f.2));
                } else {
                    assert(b.contains(f));
                }
            }
        }
        if mids_wf(mids) {
            assert(tails_wf(last.1@)) by {
                assert(mids[mids.len() - 1] == last);
            }
            if front.len() > 0 {
                assert(mids_wf(front)) by {
                    assert forall|j: int| 0 <= j < front.len() implies tails_wf((#[trigger] front[j]).1@) by {
                        assert(front[j] == mids[j]);
                    }
                    assert forall|j: int, j2: int| 0 <= j < j2 < front.len() implies (#[trigger] front[j]).0@ != (
                    #[trigger] front[j2]).0@ by {
                        assert(front[j] == mids[j]);
                        assert(front[j2] == mids[j2]);
                    }
                }
            }
            assert forall|x: int, y: int| 0 <= x < a.len() && 0 <= y < b.len() implies a[x] != b[y] by {
                assert(a.contains(a[x]));
                let j = choose|j: int|
                    0 <= j < front.len() && (#[trigger] front[j]).0@ == a[x].1 && tails_hold(
                        front[j].1@,
                        a[x].2,
                    );
                assert(front[j] == mids[j]);
                assert(mids[j].0@ != mids[mids.len() - 1].0@);
                assert(b[y].1 == last.0@);
            }
            vstd::seq_lib::lemma_no_dup_in_concat(a, b);
        }
    }
}

/// The triples that an index lists are the triples that it holds, and in a
/// well-formed index none is listed twice.
pub proof fn lemma_head_rows(heads: Seq<(String, Mids)>)
    ensures
        forall|f: Fact| #[trigger] head_rows(heads).contains(f) <==> heads_hold(heads, f),
        TripleStore::heads_wf(heads) ==> head_rows(heads).no_duplicates(),
    decreases heads.len(),
{
    if heads.len() > 0 {
        let front = heads.drop_last();
        let last = heads.last();
        let a = head_rows(front);
        let b = mid_rows(last.0@, last.1@);
        lemma_head_rows(front);
        lemma_mid_rows(last.0@, last.1@);
        assert forall|f: Fact| #[trigger] head_rows(heads).contains(f) <==> heads_hold(heads, f) by {
            vstd::seq_lib::lemma_seq_concat_contains_all_elements(a, b, f);
            if a.contains(f) {
                let i = choose|i: int|
                    0 <= i < front.len() && (#[trigger] front[i]).0@ == f.0 && mids_hold(front[i].1@, f.1, f.2);
                assert(heads[i] == front[i]);
            }
            if b.contains(f) {
                assert(heads[heads.len() - 1] == last);
            }
            if heads_hold(heads, f) {
                let i = choose|i: int|
                    0 <= i < heads.len() && (#[trigger] heads[i]).0@ == f.0 && mids_hold(heads[i].1@, f.1, f.2);
                if i < front.len() {
                    assert(front[i] == heads[i]);
                    assert(heads_hold(front, f));
                } else {
                    assert(b.contains(f));
                }
            }
        }
        if TripleStore::heads_wf(heads) {
            assert(mids_wf(last.1@)) by {
                assert(heads[heads.len() - 1] == last);
            }
            assert(TripleStore::heads_wf(front)) by {
                assert forall|i: int| 0 <= i < front.len() implies mids_wf((#[trigger] front[i]).1@) by {
                    assert(front[i] == heads[i]);
                }
                assert forall|i: int, i2: int| 0 <= i < i2 < front.len() implies (#[trigger] front[i]).0@ != (
                #[trigger] front[i2]).0@ by {
                    assert(front[i] == heads[i]);
                    assert(front[i2] == heads[i2]);
                }
            }
            assert forall|x: int, y: int| 0 <= x < a.len() && 0 <= y < b.len() implies a[x] != b[y] by {
                assert(a.contains(a[x]));
                assert(b.contains(b[y]));
                let i = choose|i: int|
                    0 <= i < front.len() && (#[trigger] front[i]).0@ == a[x].0 && mids_hold(
                        front[i].1@,
                        a[x].1,
                        a[x].2,
                    );
                assert(front[i] == heads[i]);
                assert(heads[i].0@ != heads[heads.len() - 1].0@);
                assert(b[y].0 == last.0@);
            }
            vstd::seq_lib::lemma_no_dup_in_concat(a, b);
        }
    }
}

/// The two ways of saying that a triple is held agree.
pub proof fn lemma_holds_nested(a: TripleStore, f: Fact)
    ensures
        a.holds(f) <==> heads_hold(a.0@, f),
{
    if a.holds(f) {
        let (i, j, k) = choose|i: int, j: int, k: int| a.in_range(i, j, k) && #[trigger] a.cell(i, j, k) == f;
        assert(a.0@[i].1@[j].1@[k]@ == f.2);
        assert(tails_hold(a.0@[i].1@[j].1@, f.2));
        assert(a.0@[i].1@[j].0@ == f.1);
        assert(mids_hold(a.0@[i].1@, f.1, f.2));
        assert(a.0@[i].0@ == f.0);
    }
    if heads_hold(a.0@, f) {
        let i = choose|i: int|
            0 <= i < a.0@.len() && (#[trigger] a.0@[i]).0@ == f.0 && mids_hold(a.0@[i].1@, f.1, f.2);
        let mids = a.0@[i].1@;
        let j = choose|j: int| 0 <= j < mids.len() && (#[trigger] mids[j]).0@ == f.1 && tails_hold(mids[j].1@, f.2);
        let tails = mids[j].1@;
        let k = choose|k: int| 0 <= k < tails.len() && (#[trigger] tails[k])@ == f.2;
        assert(a.in_range(i, j, k));
        assert(a.cell(i, j, k) == f);
    }
}

/// The listing of an index holds what the index holds, and nothing twice.
pub proof fn lemma_rows_of_heads(a: TripleStore)
    ensures
        forall|f: Fact| #[trigger] a.rows().contains(f) <==> a@.contains(f),
        a.wf() ==> a.rows().no_duplicates(),
{
    lemma_head_rows(a.0@);
    assert forall|f: Fact| #[trigger] a.rows().contains(f) <==> a@.contains(f) by {
        lemma_holds_nested(a, f);
    }
}

/// A triple whose head stands at place i is held just when that head's mids hold the rest.
proof fn lemma_under_head(a: TripleStore, i: int, f: Fact)
    requires
        a.wf(),
        0 <= i < a.0@.len(),
    ensures
        a.0@[i].0@ == f.0 ==> (a.holds(f) <==> mids_hold(a.0@[i].1@, f.1, f.2)),
{
    lemma_holds_nested(a, f);
    if a.0@[i].0@ == f.0 && heads_hold(a.0@, f) {
        let i2 = choose|i2: int|
            0 <= i2 < a.0@.len() && (#[trigger] a.0@[i2]).0@ == f.0 && mids_hold(a.0@[i2].1@, f.1, f.2);
        if i2 < i {
            assert(a.0@[i2].0@ != a.0@[i].0@);
        }
        if i < i2 {
            assert(a.0@[i].0@ != a.0@[i2].0@);
        }
    }
}

/// Under a mid that stands at place j, a tail is held just when that mid's tails hold it.
proof fn lemma_under_mid(mids: Seq<(String, Vec<String>)>, j: int, m: Seq<char>, t: Seq<char>)
    requires
        mids_wf(mids),
        0 <= j < mids.len(),
    ensures
        mids[j].0@ == m ==> (mids_hold(mids, m, t) <==> tails_hold(mids[j].1@, t)),
{
    if mids[j].0@ == m && mids_hold(mids, m, t) {
        let j2 = choose|j2: int| 0 <= j2 < mids.len() && (#[trigger] mids[j2]).0@ == m && tails_hold(mids[j2].1@, t);
        if j2 < j {
            assert(mids[j2].0@ != mids[j].0@);
        }
        if j < j2 {
            assert(mids[j].0@ != mids[j2].0@);
        }
    }
}

/// A held triple has its head among the heads and its mid among that head's mids.
proof fn lemma_held_places(a: TripleStore, f: Fact)
    requires
        a.holds(f),
    ensures
        exists|i: int, j: int|
            0 <= i < a.0@.len() && 0 <= j < a.0@[i].1@.len() && (#[trigger] a.0@[i]).0@ == f.0 && (
            #[trigger] a.0@[i].1@[j]).0@ == f.1,
{
    let (i, j, k) = choose|i: int, j: int, k: int| a.in_range(i, j, k) && #[trigger] a.cell(i, j, k) == f;
    assert(a.0@[i].0@ == f.0 && a.0@[i].1@[j].0@ == f.1);
}

/// Appends to `out` the pairs of one head with each of its mids that `want` admits.
fn push_pairs(h: &String, mids: &Mids, want: &Option<String>, out: &mut Vec<Double>)
    ensures
        final(out).deep_view() == old(out).deep_view() + pair_rows(h@, mids@, want.deep_view()),
{
    let ghost before = out.deep_view();
    let mut j: usize = 0;
    proof {
        assert(before + pair_rows(h@, mids@.take(0), want.deep_view()) =~= before);
    }
    while j < mids.len()
        invariant
            j <= mids@.len(),
            out.deep_view() == before + pair_rows(h@, mids@.take(j as int), want.deep_view()),
        decreases mids@.len() - j,
    {
        let ghost prev = out.deep_view();
        let admitted = match want {
            Some(m) => mids[j].0 == *m,
            None => true,
        };
        if admitted {
            out.push((h.clone(), mids[j].0.clone()));
            proof {
                assert(out.deep_view() =~= prev.push((h@, mids@[j as int].0@)));
            }
        }
        proof {
            let next = mids@.take(j + 1);
            assert(next.drop_last() =~= mids@.take(j as int));
            assert(next.last() == mids@[j as int]);
            assert(out.deep_view() =~= before + pair_rows(h@, next, want.deep_view()));
        }
        j += 1;
    }
    proof {
        assert(mids@.take(j as int) =~= mids@);
    }
}

/// What `pair_rows` holds, and that it holds nothing twice where no mid occurs twice.
pub proof fn lemma_pair_rows(h: Seq<char>, mids: Seq<(String, Vec<String>)>, want: Option<Seq<char>>)
    ensures
        forall|d: (Seq<char>, Seq<char>)| #[trigger]
            pair_rows(h, mids, want).contains(d) <==> d.0 == h && position_matches(want, d.1) && mids_have(
                mids,
                d.1,
            ),
        (forall|j: int, j2: int| 0 <= j < j2 < mids.len() ==> (#[trigger] mids[j]).0@ != (#[trigger] mids[j2]).0@)
            ==> pair_rows(h, mids, want).no_duplicates(),
    decreases mids.len(),
{
    if mids.len() > 0 {
        let front = mids.drop_last();
        let last = mids.last();
        let a = pair_rows(h, front, want);
        lemma_pair_rows(h, front, want);
        assert forall|d: (Seq<char>, Seq<char>)| #[trigger]
            pair_rows(h, mids, want).contains(d) <==> d.0 == h && position_matches(want, d.1) && mids_have(
                mids,
                d.1,
            ) by {
            if position_matches(want, last.0@) {
                vstd::seq_lib::lemma_seq_contains_after_push(a, (h, last.0@), d);
            }
            if a.contains(d) {
                let j = choose|j: int| 0 <= j < front.len() && (#[trigger] front[j]).0@ == d.1;
                assert(mids[j] == front[j]);
            }
            if d == (h, last.0@) {
                assert(mids[mids.len() - 1] == last);
            }
            if mids_have(mids, d.1) {
                let j = choose|j: int| 0 <= j < mids.len() && (#[trigger] mids[j]).0@ == d.1;
                if j < front.len() {
                    assert(front[j] == mids[j]);
                }
            }
        }
        if forall|j: int, j2: int|
            0 <= j < j2 < mids.len() ==> (#[trigger] mids[j]).0@ != (#[trigger] mids[j2]).0@ {
            assert forall|j: int, j2: int| 0 <= j < j2 < front.len() implies (#[trigger] front[j]).0@ != (
            #[trigger] front[j2]).0@ by {
                assert(front[j] == mids[j]);
                assert(front[j2] == mids[j2]);
            }
            if position_matches(want, last.0@) {
                assert forall|x: int| 0 <= x < a.len() implies a[x] != (h, last.0@) by {
                    assert(a.contains(a[x]));
                    let j = choose|j: int| 0 <= j < front.len() && (#[trigger] front[j]).0@ == a[x].1;
                    assert(front[j] == mids[j]);
                    assert(mids[j].0@ != mids[mids.len() - 1].0@);
                }
            }
        }
    }
}

/// Each element of the reordered rows is a reordered element, and reordering
/// makes no two elements equal.
proof fn lemma_ordered_rows(rows: Seq<Fact>, ord: TOrder)
    ensures
        forall|f: Fact| #[trigger]
            ordered_rows(rows, ord).contains(f) <==> exists|g: Fact| rows.contains(g) && #[trigger] to_spo(g, ord) == f,
        rows.no_duplicates() ==> ordered_rows(rows, ord).no_duplicates(),
{
    let out = ordered_rows(rows, ord);
    assert forall|f: Fact| #[trigger] out.contains(f) <==> exists|g: Fact|
        rows.contains(g) && #[trigger] to_spo(g, ord) == f by {
        if out.contains(f) {
            let n = choose|n: int| 0 <= n < out.len() && out[n] == f;
            assert(rows.contains(rows[n]) && to_spo(rows[n], ord) == f);
        }
        if exists|g: Fact| rows.contains(g) && #[trigger] to_spo(g, ord) == f {
            let g = choose|g: Fact| rows.contains(g) && #[trigger] to_spo(g, ord) == f;
            let n = choose|n: int| 0 <= n < rows.len() && rows[n] == g;
            assert(out[n] == f);
        }
    }
    if rows.no_duplicates() {
        assert forall|x: int, y: int| 0 <= x < out.len() && 0 <= y < out.len() && x != y implies out[x] != out[y] by {
            assert(rows[x] != rows[y]);
        }
    }
}

/// The head at place i is the head of a triple that is held.
proof fn lemma_head_key(a: TripleStore, i: int)
    requires
        a.wf(),
        0 <= i < a.0@.len(),
    ensures
        a.has_head(a.0@[i].0@),
{
    assert(mids_wf(a.0@[i].1@));
    assert(tails_wf(a.0@[i].1@[0].1@));
    assert(a.in_range(i, 0, 0));
    assert(a@.contains(a.cell(i, 0, 0)));
}

/// The heads of a well-formed index are distinct, and each is the head of a triple held.
pub proof fn lemma_head_keys(a: TripleStore)
    requires
        a.wf(),
    ensures
        Seq::new(a.0@.len(), |x: int| a.0@[x].0@).no_duplicates(),
        forall|h: Seq<char>| #[trigger] heads_have(a.0@, h) <==> a.has_head(h),
{
    let keys = Seq::new(a.0@.len(), |x: int| a.0@[x].0@);
    assert forall|x: int, y: int| 0 <= x < keys.len() && 0 <= y < keys.len() && x != y implies keys[x] != keys[y] by {
        if x < y {
            assert(a.0@[x].0@ != a.0@[y].0@);
        } else {
            assert(a.0@[y].0@ != a.0@[x].0@);
        }
    }
    assert forall|h: Seq<char>| #[trigger] heads_have(a.0@, h) <==> a.has_head(h) by {
        if heads_have(a.0@, h) {
            let i = choose|i: int| 0 <= i < a.0@.len() && (#[trigger] a.0@[i]).0@ == h;
            lemma_head_key(a, i);
        }
        if a.has_head(h) {
            let (m, t) = choose|m: Seq<char>, t: Seq<char>| a@.contains((h, m, t));
            let (i, j, k) = choose|i: int, j: int, k: int|
                a.in_range(i, j, k) && #[trigger] a.cell(i, j, k) == (h, m, t);
            assert(a.0@[i].0@ == h);
        }
    }
}

/// A head and mid stand in a well-formed index just when some triple held begins with them.
pub proof fn lemma_pair_keys(a: TripleStore)
    requires
        a.wf(),
    ensures
        forall|h: Seq<char>, m: Seq<char>| #[trigger] heads_have_pair(a.0@, h, m) <==> a.has_pair(h, m),
{
    assert forall|h: Seq<char>, m: Seq<char>| #[trigger] heads_have_pair(a.0@, h, m) <==> a.has_pair(h, m) by {
        if heads_have_pair(a.0@, h, m) {
            let i = choose|i: int| 0 <= i < a.0@.len() && (#[trigger] a.0@[i]).0@ == h && mids_have(a.0@[i].1@, m);
            let mids = a.0@[i].1@;
            let j = choose|j: int| 0 <= j < mids.len() && (#[trigger] mids[j]).0@ == m;
            assert(mids_wf(mids));
            assert(tails_wf(mids[j].1@));
            assert(a.in_range(i, j, 0));
            assert(a@.contains(a.cell(i, j, 0)));
        }
        if a.has_pair(h, m) {
            let t = choose|t: Seq<char>| a@.contains((h, m, t));
            let (i, j, k) = choose|i: int, j: int, k: int|
                a.in_range(i, j, k) && #[trigger] a.cell(i, j, k) == (h, m, t);
            assert(a.0@[i].1@[j].0@ == m);
            assert(mids_have(a.0@[i].1@, m));
            assert(a.0@[i].0@ == h);
        }
    }
}

/// The invariant of one head's mids: distinct mids, each with distinct tails and at least one.
pub open spec fn mids_wf(mids: Seq<(String, Vec<String>)>) -> bool {
    &&& mids.len() > 0
    &&& forall|j: int, j2: int|
        0 <= j < j2 < mids.len() ==> (#[trigger] mids[j]).0@ != (#[trigger] mids[j2]).0@
    &&& forall|j: int| 0 <= j < mids.len() ==> tails_wf((#[trigger] mids[j]).1@)
}

/// The invariant of one mid's tails: at least one, none twice.
pub open spec fn tails_wf(tails: Seq<String>) -> bool {
    &&& tails.len() > 0
    &&& forall|k: int, k2: int| 0 <= k < k2 < tails.len() ==> (#[trigger] tails[k])@ != (#[trigger] tails[k2])@
}

} // verus!
