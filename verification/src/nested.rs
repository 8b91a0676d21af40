//! The contents of an index as nested values: every head with its mids, every
//! mid with its tails, in the order in which the index keeps them. This is
//! what two indexes are compared by, and what storing and removing change.

use vstd::prelude::*;
use crate::triple::Fact;
use crate::triple_store::{mids_wf, tails_wf, TripleStore};

verus! {

/// The tails under one mid.
pub type TailsView = Seq<Seq<char>>;

/// The mids under one head, each with its tails.
pub type MidsView = Seq<(Seq<char>, TailsView)>;

/// The heads of an index, each with its mids.
pub type NestedView = Seq<(Seq<char>, MidsView)>;

/// The triple that nested values hold at head i, mid j, tail k.
pub open spec fn nested_cell(n: NestedView, i: int, j: int, k: int) -> Fact {
    (n[i].0, n[i].1[j].0, n[i].1[j].1[k])
}

/// Whether nested values hold the triple: the tail under the mid under the head.
pub open spec fn nested_holds(n: NestedView, f: Fact) -> bool {
    exists|i: int, j: int, k: int|
        0 <= i < n.len() && 0 <= j < n[i].1.len() && 0 <= k < n[i].1[j].1.len() && #[trigger] nested_cell(n, i, j, k)
            == f
}

/// The triples that nested values hold.
pub open spec fn nested_facts(n: NestedView) -> Set<Fact> {
    Set::new(|f: Fact| nested_holds(n, f))
}

/// Whether no key occurs twice among the entries.
pub open spec fn keys_distinct<V>(entries: Seq<(Seq<char>, V)>) -> bool {
    forall|i: int, i2: int| 0 <= i < i2 < entries.len() ==> (#[trigger] entries[i]).0 != (#[trigger] entries[i2]).0
}

/// Whether the tails are at least one and no tail occurs twice.
pub open spec fn tails_ok(tails: TailsView) -> bool {
    &&& tails.len() > 0
    &&& forall|k: int, k2: int| 0 <= k < k2 < tails.len() ==> #[trigger] tails[k] != #[trigger] tails[k2]
}

/// Whether the mids are at least one, no mid occurs twice, and each has tails that are in order.
pub open spec fn mids_ok(mids: MidsView) -> bool {
    &&& mids.len() > 0
    &&& keys_distinct(mids)
    &&& forall|j: int| 0 <= j < mids.len() ==> tails_ok((#[trigger] mids[j]).1)
}

/// Whether nested values are those of a well-formed index.
pub open spec fn nested_ok(n: NestedView) -> bool {
    &&& keys_distinct(n)
    &&& forall|i: int| 0 <= i < n.len() ==> mids_ok((#[trigger] n[i]).1)
}

/// The place of the entry with the given key, if there is one.
pub open spec fn place_of<V>(entries: Seq<(Seq<char>, V)>, key: Seq<char>) -> Option<int> {
    if exists|i: int| 0 <= i < entries.len() && (#[trigger] entries[i]).0 == key {
        Some(choose|i: int| 0 <= i < entries.len() && (#[trigger] entries[i]).0 == key)
    } else {
        None
    }
}

/// The place of the given tail, if it is there.
pub open spec fn tail_place(tails: TailsView, t: Seq<char>) -> Option<int> {
    if exists|k: int| 0 <= k < tails.len() && #[trigger] tails[k] == t {
        Some(choose|k: int| 0 <= k < tails.len() && #[trigger] tails[k] == t)
    } else {
        None
    }
}

/// One head's mids after the tail `t` has been stored under the mid `m`: a
/// new mid goes behind the others, a new tail behind the other tails of its
/// mid, and a tail that is there already changes nothing.
pub open spec fn mids_added(mids: MidsView, m: Seq<char>, t: Seq<char>) -> MidsView {
    match place_of(mids, m) {
        None => mids.push((m, seq![t])),
        Some(j) => if tail_place(mids[j].1, t) is Some {
            mids
        } else {
            mids.update(j, (mids[j].0, mids[j].1.push(t)))
        },
    }
}

/// The nested values after a triple has been stored: a new head goes behind
/// the others, and under a head that is there the mids change as `mids_added` says.
pub open spec fn added(n: NestedView, f: Fact) -> NestedView {
    match place_of(n, f.0) {
        None => n.push((f.0, seq![(f.1, seq![f.2])])),
        Some(i) => n.update(i, (n[i].0, mids_added(n[i].1, f.1, f.2))),
    }
}

/// One head's mids after the tail `t` has been removed from under the mid
/// `m`: the tail goes, and with it the mid if no tail is left.
pub open spec fn mids_erased(mids: MidsView, m: Seq<char>, t: Seq<char>) -> MidsView {
    match place_of(mids, m) {
        None => mids,
        Some(j) => match tail_place(mids[j].1, t) {
            None => mids,
            Some(k) => if mids[j].1.len() == 1 {
                mids.remove(j)
            } else {
                mids.update(j, (mids[j].0, mids[j].1.remove(k)))
            },
        },
    }
}

/// The nested values after a triple has been removed: under its head the
/// mids change as `mids_erased` says, and the head goes if no mid is left.
pub open spec fn erased(n: NestedView, f: Fact) -> NestedView {
    match place_of(n, f.0) {
        None => n,
        Some(i) => {
            let rest = mids_erased(n[i].1, f.1, f.2);
            if rest.len() == 0 {
                n.remove(i)
            } else {
                n.update(i, (n[i].0, rest))
            }
        },
    }
}

/// Among entries with distinct keys, the entry with a key stands at one place.
pub proof fn lemma_place<V>(entries: Seq<(Seq<char>, V)>, key: Seq<char>, i: int)
    requires
        keys_distinct(entries),
        0 <= i < entries.len(),
        entries[i].0 == key,
    ensures
        place_of(entries, key) == Some(i),
{
    let found = choose|x: int| 0 <= x < entries.len() && (#[trigger] entries[x]).0 == key;
    if found < i {
        assert(entries[found].0 != entries[i].0);
    }
    if i < found {
        assert(entries[i].0 != entries[found].0);
    }
}

/// Among tails of which none occurs twice, a tail stands at one place.
pub proof fn lemma_tail_place(tails: TailsView, t: Seq<char>, k: int)
    requires
        tails_ok(tails),
        0 <= k < tails.len(),
        tails[k] == t,
    ensures
        tail_place(tails, t) == Some(k),
{
    let found = choose|x: int| 0 <= x < tails.len() && #[trigger] tails[x] == t;
    if found < k {
        assert(tails[found] != tails[k]);
    }
    if k < found {
        assert(tails[k] != tails[found]);
    }
}

/// What a well-formed index holds of a triple, said by the places of its head, mid and tail.
pub proof fn lemma_holds_by_place(n: NestedView, f: Fact)
    requires
        nested_ok(n),
    ensures
        nested_holds(n, f) <==> (place_of(n, f.0) matches Some(i) && place_of(n[i].1, f.1) matches Some(j)
            && tail_place(n[i].1[j].1, f.2) is Some),
{
    if nested_holds(n, f) {
        let (i, j, k) = choose|i: int, j: int, k: int|
            0 <= i < n.len() && 0 <= j < n[i].1.len() && 0 <= k < n[i].1[j].1.len() && #[trigger] nested_cell(
                n,
                i,
                j,
                k,
            ) == f;
        lemma_place(n, f.0, i);
        assert(mids_ok(n[i].1));
        lemma_place(n[i].1, f.1, j);
        assert(tails_ok(n[i].1[j].1));
        lemma_tail_place(n[i].1[j].1, f.2, k);
    }
    if place_of(n, f.0) matches Some(i) && place_of(n[i].1, f.1) matches Some(j) && tail_place(
        n[i].1[j].1,
        f.2,
    ) is Some {
        let i = place_of(n, f.0)->Some_0;
        let j = place_of(n[i].1, f.1)->Some_0;
        let k = tail_place(n[i].1[j].1, f.2)->Some_0;
        assert(nested_cell(n, i, j, k) == f);
    }
}

/// The nested values of an index, place for place.
pub proof fn lemma_nested_shape(a: TripleStore)
    ensures
        a.nested().len() == a.0@.len(),
        forall|i: int|
            0 <= i < a.0@.len() ==> (#[trigger] a.nested()[i]).0 == a.0@[i].0@ && a.nested()[i].1.len()
                == a.0@[i].1@.len(),
        forall|i: int, j: int|
            0 <= i < a.0@.len() && 0 <= j < a.0@[i].1@.len() ==> (#[trigger] a.nested()[i].1[j]).0
                == a.0@[i].1@[j].0@ && a.nested()[i].1[j].1.len() == a.0@[i].1@[j].1@.len(),
        forall|i: int, j: int, k: int|
            a.in_range(i, j, k) ==> #[trigger] a.nested()[i].1[j].1[k] == a.0@[i].1@[j].1@[k]@,
        forall|i: int, j: int, k: int| a.in_range(i, j, k) ==> #[trigger] nested_cell(a.nested(), i, j, k) == a.cell(i, j, k),
{
}

/// An index is well formed just when its nested values are, and holds what they hold.
pub proof fn lemma_nested_of(a: TripleStore)
    ensures
        a.wf() <==> nested_ok(a.nested()),
        forall|f: Fact| #[trigger] a.holds(f) <==> nested_holds(a.nested(), f),
        a@ == nested_facts(a.nested()),
{
    let n = a.nested();
    lemma_nested_shape(a);
    if a.wf() {
        assert forall|i: int| 0 <= i < n.len() implies mids_ok((#[trigger] n[i]).1) by {
            assert(mids_wf(a.0@[i].1@));
            assert forall|j: int| 0 <= j < n[i].1.len() implies tails_ok((#[trigger] n[i].1[j]).1) by {
                assert(tails_wf(a.0@[i].1@[j].1@));
                assert forall|k: int, k2: int| 0 <= k < k2 < n[i].1[j].1.len() implies #[trigger] n[i].1[j].1[k]
                    != #[trigger] n[i].1[j].1[k2] by {
                    assert(a.in_range(i, j, k) && a.in_range(i, j, k2));
                    assert(a.0@[i].1@[j].1@[k]@ != a.0@[i].1@[j].1@[k2]@);
                }
            }
            assert forall|j: int, j2: int| 0 <= j < j2 < n[i].1.len() implies (#[trigger] n[i].1[j]).0 != (
            #[trigger] n[i].1[j2]).0 by {
                assert(a.0@[i].1@[j].0@ != a.0@[i].1@[j2].0@);
            }
        }
        assert forall|i: int, i2: int| 0 <= i < i2 < n.len() implies (#[trigger] n[i]).0 != (#[trigger] n[i2]).0 by {
            assert(a.0@[i].0@ != a.0@[i2].0@);
        }
    }
    if nested_ok(n) {
        assert forall|i: int| 0 <= i < a.0@.len() implies mids_wf((#[trigger] a.0@[i]).1@) by {
            let mids = a.0@[i].1@;
            assert(mids_ok(n[i].1));
            assert forall|j: int| 0 <= j < mids.len() implies tails_wf((#[trigger] mids[j]).1@) by {
                let tails = mids[j].1@;
                assert(tails_ok(n[i].1[j].1));
                assert forall|k: int, k2: int| 0 <= k < k2 < tails.len() implies (#[trigger] tails[k])@ != (
                #[trigger] tails[k2])@ by {
                    assert(a.in_range(i, j, k) && a.in_range(i, j, k2));
                    assert(n[i].1[j].1[k] != n[i].1[j].1[k2]);
                }
            }
            assert forall|j: int, j2: int| 0 <= j < j2 < mids.len() implies (#[trigger] mids[j]).0@ != (
            #[trigger] mids[j2]).0@ by {
                assert(n[i].1[j].0 != n[i].1[j2].0);
            }
        }
        assert forall|i: int, i2: int| 0 <= i < i2 < a.0@.len() implies (#[trigger] a.0@[i]).0@ != (
        #[trigger] a.0@[i2]).0@ by {
            assert(n[i].0 != n[i2].0);
        }
    }
    assert forall|f: Fact| #[trigger] a.holds(f) <==> nested_holds(n, f) by {
        if a.holds(f) {
            let (i, j, k) = choose|i: int, j: int, k: int| a.in_range(i, j, k) && #[trigger] a.cell(i, j, k) == f;
            assert(nested_cell(n, i, j, k) == f);
        }
        if nested_holds(n, f) {
            let (i, j, k) = choose|i: int, j: int, k: int|
                0 <= i < n.len() && 0 <= j < n[i].1.len() && 0 <= k < n[i].1[j].1.len() && #[trigger] nested_cell(
                    n,
                    i,
                    j,
                    k,
                ) == f;
            assert(a.in_range(i, j, k));
            assert(a.cell(i, j, k) == f);
        }
    }
    assert(a@ =~= nested_facts(n));
}

/// The place of a head among the nested values of a well-formed index is
/// the place of that head in the index, and a head that the index lacks has none.
pub proof fn lemma_head_place(a: TripleStore, h: Seq<char>)
    requires
        a.wf(),
    ensures
        forall|i: int| 0 <= i < a.0@.len() && (#[trigger] a.0@[i]).0@ == h ==> place_of(a.nested(), h) == Some(i),
        (forall|i: int| 0 <= i < a.0@.len() ==> (#[trigger] a.0@[i]).0@ != h) ==> place_of(a.nested(), h) is None,
{
    let n = a.nested();
    lemma_nested_shape(a);
    lemma_nested_of(a);
    assert forall|i: int| 0 <= i < a.0@.len() && (#[trigger] a.0@[i]).0@ == h implies place_of(n, h) == Some(i) by {
        lemma_place(n, h, i);
    }
    if forall|i: int| 0 <= i < a.0@.len() ==> (#[trigger] a.0@[i]).0@ != h {
        if exists|i: int| 0 <= i < n.len() && (#[trigger] n[i]).0 == h {
            let i = choose|i: int| 0 <= i < n.len() && (#[trigger] n[i]).0 == h;
            assert(a.0@[i].0@ != h);
        }
    }
}

/// The place of a mid under the head at place i, as `lemma_head_place` has it for heads.
pub proof fn lemma_mid_place(a: TripleStore, i: int, m: Seq<char>)
    requires
        a.wf(),
        0 <= i < a.0@.len(),
    ensures
        forall|j: int|
            0 <= j < a.0@[i].1@.len() && (#[trigger] a.0@[i].1@[j]).0@ == m ==> place_of(a.nested()[i].1, m) == Some(
                j,
            ),
        (forall|j: int| 0 <= j < a.0@[i].1@.len() ==> (#[trigger] a.0@[i].1@[j]).0@ != m) ==> place_of(
            a.nested()[i].1,
            m,
        ) is None,
{
    let n = a.nested();
    let mids = n[i].1;
    lemma_nested_shape(a);
    lemma_nested_of(a);
    assert(mids_ok(mids));
    assert forall|j: int| 0 <= j < a.0@[i].1@.len() && (#[trigger] a.0@[i].1@[j]).0@ == m implies place_of(mids, m)
        == Some(j) by {
        lemma_place(mids, m, j);
    }
    if forall|j: int| 0 <= j < a.0@[i].1@.len() ==> (#[trigger] a.0@[i].1@[j]).0@ != m {
        if exists|j: int| 0 <= j < mids.len() && (#[trigger] mids[j]).0 == m {
            let j = choose|j: int| 0 <= j < mids.len() && (#[trigger] mids[j]).0 == m;
            assert(a.0@[i].1@[j].0@ != m);
        }
    }
}

/// A tail pushed under an existing head and mid is what `added` says.
pub proof fn lemma_tail_added_nested(a: TripleStore, b: TripleStore, i: int, j: int, f: Fact)
    requires
        a.wf(),
        0 <= i < a.0@.len(),
        0 <= j < a.0@[i].1@.len(),
        a.0@[i].0@ == f.0,
        a.0@[i].1@[j].0@ == f.1,
        forall|k: int| 0 <= k < a.0@[i].1@[j].1@.len() ==> (#[trigger] a.0@[i].1@[j].1@[k])@ != f.2,
        b.0@.len() == a.0@.len(),
        forall|i2: int| 0 <= i2 < a.0@.len() && i2 != i ==> #[trigger] b.0@[i2] == a.0@[i2],
        b.0@[i].0 == a.0@[i].0,
        b.0@[i].1@.len() == a.0@[i].1@.len(),
        forall|j2: int| 0 <= j2 < a.0@[i].1@.len() && j2 != j ==> #[trigger] b.0@[i].1@[j2] == a.0@[i].1@[j2],
        b.0@[i].1@[j].0 == a.0@[i].1@[j].0,
        b.0@[i].1@[j].1@.len() == a.0@[i].1@[j].1@.len() + 1,
        forall|k: int| 0 <= k < a.0@[i].1@[j].1@.len() ==> #[trigger] b.0@[i].1@[j].1@[k] == a.0@[i].1@[j].1@[k],
        b.0@[i].1@[j].1@[a.0@[i].1@[j].1@.len() as int]@ == f.2,
    ensures
        b.nested() == added(a.nested(), f),
{
    let an = a.nested();
    let bn = b.nested();
    lemma_nested_shape(a);
    lemma_nested_shape(b);
    lemma_nested_of(a);
    lemma_place(an, f.0, i);
    assert(mids_ok(an[i].1));
    lemma_place(an[i].1, f.1, j);
    let tails = an[i].1[j].1;
    assert(tail_place(tails, f.2) is None) by {
        if exists|k: int| 0 <= k < tails.len() && #[trigger] tails[k] == f.2 {
            let k = choose|k: int| 0 <= k < tails.len() && #[trigger] tails[k] == f.2;
            assert(a.in_range(i, j, k));
            assert(a.0@[i].1@[j].1@[k]@ != f.2);
        }
    }
    assert(bn[i].1[j].1 =~= tails.push(f.2)) by {
        assert forall|k: int| 0 <= k < tails.len() implies bn[i].1[j].1[k] == tails[k] by {
            assert(b.in_range(i, j, k) && a.in_range(i, j, k));
            assert(b.0@[i].1@[j].1@[k] == a.0@[i].1@[j].1@[k]);
        }
        assert(b.in_range(i, j, tails.len() as int));
    }
    let mids_after = an[i].1.update(j, (an[i].1[j].0, tails.push(f.2)));
    assert(bn[i].1 =~= mids_after) by {
        assert forall|j2: int| 0 <= j2 < an[i].1.len() && j2 != j implies bn[i].1[j2] == an[i].1[j2] by {
            assert(b.0@[i].1@[j2] == a.0@[i].1@[j2]);
        }
    }
    assert(bn =~= an.update(i, (an[i].0, mids_after))) by {
        assert forall|i2: int| 0 <= i2 < an.len() && i2 != i implies bn[i2] == an[i2] by {
            assert(b.0@[i2] == a.0@[i2]);
        }
    }
}

/// A mid pushed with one tail under an existing head is what `added` says.
pub proof fn lemma_mid_added_nested(a: TripleStore, b: TripleStore, i: int, f: Fact)
    requires
        a.wf(),
        0 <= i < a.0@.len(),
        a.0@[i].0@ == f.0,
        forall|j: int| 0 <= j < a.0@[i].1@.len() ==> (#[trigger] a.0@[i].1@[j]).0@ != f.1,
        b.0@.len() == a.0@.len(),
        forall|i2: int| 0 <= i2 < a.0@.len() && i2 != i ==> #[trigger] b.0@[i2] == a.0@[i2],
        b.0@[i].0 == a.0@[i].0,
        b.0@[i].1@.len() == a.0@[i].1@.len() + 1,
        forall|j2: int| 0 <= j2 < a.0@[i].1@.len() ==> #[trigger] b.0@[i].1@[j2] == a.0@[i].1@[j2],
        b.0@[i].1@[a.0@[i].1@.len() as int].0@ == f.1,
        b.0@[i].1@[a.0@[i].1@.len() as int].1@.len() == 1,
        b.0@[i].1@[a.0@[i].1@.len() as int].1@[0]@ == f.2,
    ensures
        b.nested() == added(a.nested(), f),
{
    let an = a.nested();
    let bn = b.nested();
    lemma_nested_shape(a);
    lemma_nested_shape(b);
    lemma_nested_of(a);
    lemma_place(an, f.0, i);
    let mids = an[i].1;
    let last = mids.len() as int;
    assert(place_of(mids, f.1) is None) by {
        if exists|j: int| 0 <= j < mids.len() && (#[trigger] mids[j]).0 == f.1 {
            let j = choose|j: int| 0 <= j < mids.len() && (#[trigger] mids[j]).0 == f.1;
            assert(a.0@[i].1@[j].0@ != f.1);
        }
    }
    assert(bn[i].1[last].1 =~= seq![f.2]) by {
        assert(b.in_range(i, last, 0));
    }
    assert(bn[i].1 =~= mids.push((f.1, seq![f.2]))) by {
        assert forall|j2: int| 0 <= j2 < mids.len() implies bn[i].1[j2] == mids[j2] by {
            assert(b.0@[i].1@[j2] == a.0@[i].1@[j2]);
        }
    }
    assert(bn =~= an.update(i, (an[i].0, mids.push((f.1, seq![f.2]))))) by {
        assert forall|i2: int| 0 <= i2 < an.len() && i2 != i implies bn[i2] == an[i2] by {
            assert(b.0@[i2] == a.0@[i2]);
        }
    }
}

/// A head pushed with one mid and one tail is what `added` says.
pub proof fn lemma_head_added_nested(a: TripleStore, b: TripleStore, f: Fact)
    requires
        a.wf(),
        forall|i: int| 0 <= i < a.0@.len() ==> (#[trigger] a.0@[i]).0@ != f.0,
        b.0@.len() == a.0@.len() + 1,
        forall|i2: int| 0 <= i2 < a.0@.len() ==> #[trigger] b.0@[i2] == a.0@[i2],
        b.0@[a.0@.len() as int].0@ == f.0,
        b.0@[a.0@.len() as int].1@.len() == 1,
        b.0@[a.0@.len() as int].1@[0].0@ == f.1,
        b.0@[a.0@.len() as int].1@[0].1@.len() == 1,
        b.0@[a.0@.len() as int].1@[0].1@[0]@ == f.2,
    ensures
        b.nested() == added(a.nested(), f),
{
    let an = a.nested();
    let bn = b.nested();
    lemma_nested_shape(a);
    lemma_nested_shape(b);
    let last = an.len() as int;
    assert(place_of(an, f.0) is None) by {
        if exists|i: int| 0 <= i < an.len() && (#[trigger] an[i]).0 == f.0 {
            let i = choose|i: int| 0 <= i < an.len() && (#[trigger] an[i]).0 == f.0;
            assert(a.0@[i].0@ != f.0);
        }
    }
    assert(bn[last].1[0].1 =~= seq![f.2]) by {
        assert(b.in_range(last, 0, 0));
    }
    assert(bn[last].1 =~= seq![(f.1, seq![f.2])]);
    assert(bn =~= an.push((f.0, seq![(f.1, seq![f.2])]))) by {
        assert forall|i2: int| 0 <= i2 < an.len() implies bn[i2] == an[i2] by {
            assert(b.0@[i2] == a.0@[i2]);
        }
    }
}

/// Removing a triple that a well-formed index does not hold changes nothing.
pub proof fn law_erased_when_absent(n: NestedView, f: Fact)
    requires
        nested_ok(n),
        !nested_holds(n, f),
    ensures
        erased(n, f) == n,
{
    lemma_holds_by_place(n, f);
    match place_of(n, f.0) {
        None => {},
        Some(i) => {
            assert(mids_ok(n[i].1));
            assert(mids_erased(n[i].1, f.1, f.2) == n[i].1);
            assert(n.update(i, (n[i].0, n[i].1)) =~= n);
        },
    }
}

/// Taking one of several tails away is what `erased` says.
pub proof fn lemma_tail_removed_nested(a: TripleStore, b: TripleStore, i: int, j: int, k: int, f: Fact)
    requires
        a.wf(),
        a.in_range(i, j, k),
        a.cell(i, j, k) == f,
        b.0@.len() == a.0@.len(),
        forall|i2: int| 0 <= i2 < a.0@.len() && i2 != i ==> #[trigger] b.0@[i2] == a.0@[i2],
        b.0@[i].0 == a.0@[i].0,
        b.0@[i].1@.len() == a.0@[i].1@.len(),
        forall|j2: int| 0 <= j2 < a.0@[i].1@.len() && j2 != j ==> #[trigger] b.0@[i].1@[j2] == a.0@[i].1@[j2],
        b.0@[i].1@[j].0 == a.0@[i].1@[j].0,
        b.0@[i].1@[j].1@ == a.0@[i].1@[j].1@.remove(k),
        b.0@[i].1@[j].1@.len() > 0,
    ensures
        b.nested() == erased(a.nested(), f),
{
    let an = a.nested();
    let bn = b.nested();
    lemma_nested_shape(a);
    lemma_nested_shape(b);
    lemma_nested_of(a);
    lemma_place(an, f.0, i);
    assert(mids_ok(an[i].1));
    lemma_place(an[i].1, f.1, j);
    let tails = an[i].1[j].1;
    assert(tails_ok(tails));
    lemma_tail_place(tails, f.2, k);
    assert(bn[i].1[j].1 =~= tails.remove(k)) by {
        assert forall|k2: int| 0 <= k2 < tails.len() - 1 implies bn[i].1[j].1[k2] == tails.remove(k)[k2] by {
            assert(b.in_range(i, j, k2));
            if k2 < k {
                assert(a.in_range(i, j, k2));
            } else {
                assert(a.in_range(i, j, k2 + 1));
            }
        }
    }
    let mids_after = an[i].1.update(j, (an[i].1[j].0, tails.remove(k)));
    assert(bn[i].1 =~= mids_after) by {
        assert forall|j2: int| 0 <= j2 < an[i].1.len() && j2 != j implies bn[i].1[j2] == an[i].1[j2] by {
            assert(b.0@[i].1@[j2] == a.0@[i].1@[j2]);
        }
    }
    assert(bn =~= an.update(i, (an[i].0, mids_after))) by {
        assert forall|i2: int| 0 <= i2 < an.len() && i2 != i implies bn[i2] == an[i2] by {
            assert(b.0@[i2] == a.0@[i2]);
        }
    }
}

/// Taking away a mid that held one tail only, where the head has other mids, is what `erased` says.
pub proof fn lemma_mid_removed_nested(a: TripleStore, b: TripleStore, i: int, j: int, f: Fact)
    requires
        a.wf(),
        a.in_range(i, j, 0),
        a.cell(i, j, 0) == f,
        a.0@[i].1@[j].1@.len() == 1,
        b.0@.len() == a.0@.len(),
        forall|i2: int| 0 <= i2 < a.0@.len() && i2 != i ==> #[trigger] b.0@[i2] == a.0@[i2],
        b.0@[i].0 == a.0@[i].0,
        b.0@[i].1@ == a.0@[i].1@.remove(j),
        b.0@[i].1@.len() > 0,
    ensures
        b.nested() == erased(a.nested(), f),
{
    let an = a.nested();
    let bn = b.nested();
    lemma_nested_shape(a);
    lemma_nested_shape(b);
    lemma_nested_of(a);
    lemma_place(an, f.0, i);
    let mids = an[i].1;
    assert(mids_ok(mids));
    lemma_place(mids, f.1, j);
    assert(tails_ok(mids[j].1));
    lemma_tail_place(mids[j].1, f.2, 0);
    assert(bn[i].1 =~= mids.remove(j)) by {
        assert forall|j2: int| 0 <= j2 < mids.len() - 1 implies bn[i].1[j2] == mids.remove(j)[j2] by {
            if j2 < j {
                assert(b.0@[i].1@[j2] == a.0@[i].1@[j2]);
            } else {
                assert(b.0@[i].1@[j2] == a.0@[i].1@[j2 + 1]);
            }
        }
    }
    assert(bn =~= an.update(i, (an[i].0, mids.remove(j)))) by {
        assert forall|i2: int| 0 <= i2 < an.len() && i2 != i implies bn[i2] == an[i2] by {
            assert(b.0@[i2] == a.0@[i2]);
        }
    }
}

/// Taking away a head that held one mid with one tail is what `erased` says.
pub proof fn lemma_head_removed_nested(a: TripleStore, b: TripleStore, i: int, f: Fact)
    requires
        a.wf(),
        a.in_range(i, 0, 0),
        a.cell(i, 0, 0) == f,
        a.0@[i].1@.len() == 1,
        a.0@[i].1@[0].1@.len() == 1,
        b.0@ == a.0@.remove(i),
    ensures
        b.nested() == erased(a.nested(), f),
{
    let an = a.nested();
    let bn = b.nested();
    lemma_nested_shape(a);
    lemma_nested_shape(b);
    lemma_nested_of(a);
    lemma_place(an, f.0, i);
    let mids = an[i].1;
    assert(mids_ok(mids));
    lemma_place(mids, f.1, 0);
    assert(tails_ok(mids[0].1));
    lemma_tail_place(mids[0].1, f.2, 0);
    assert(mids.remove(0).len() == 0);
    assert(bn =~= an.remove(i)) by {
        assert forall|i2: int| 0 <= i2 < an.len() - 1 implies bn[i2] == an.remove(i)[i2] by {
            if i2 < i {
                assert(b.0@[i2] == a.0@[i2]);
            } else {
                assert(b.0@[i2] == a.0@[i2 + 1]);
            }
        }
    }
}

/// Storing a triple that a well-formed index holds changes nothing.
pub proof fn law_added_when_held(n: NestedView, f: Fact)
    requires
        nested_ok(n),
        nested_holds(n, f),
    ensures
        added(n, f) == n,
{
    lemma_holds_by_place(n, f);
    let i = place_of(n, f.0)->Some_0;
    assert(added(n, f) =~= n);
}

/// Storing a triple leaves a well-formed index well formed and holding the triple.
pub proof fn law_added_ok(n: NestedView, f: Fact)
    requires
        nested_ok(n),
    ensures
        nested_ok(added(n, f)),
        nested_holds(added(n, f), f),
{
    let b = added(n, f);
    match place_of(n, f.0) {
        None => {
            let last = n.len() as int;
            assert(tails_ok(seq![f.2]));
            assert(mids_ok(seq![(f.1, seq![f.2])]));
            assert forall|i: int, i2: int| 0 <= i < i2 < b.len() implies (#[trigger] b[i]).0 != (#[trigger] b[i2]).0 by {
                if i2 < last {
                    assert(n[i].0 != n[i2].0);
                } else {
                    assert(n[i].0 != f.0);
                }
            }
            assert forall|i: int| 0 <= i < b.len() implies mids_ok((#[trigger] b[i]).1) by {
                if i < last {
                    assert(mids_ok(n[i].1));
                }
            }
            assert(nested_cell(b, last, 0, 0) == f);
        },
        Some(i) => {
            let mids = n[i].1;
            let after = mids_added(mids, f.1, f.2);
            assert(mids_ok(mids));
            lemma_mids_added_ok(mids, f.1, f.2);
            assert forall|x: int, x2: int| 0 <= x < x2 < b.len() implies (#[trigger] b[x]).0 != (#[trigger] b[x2]).0 by {
                assert(n[x].0 != n[x2].0);
            }
            assert forall|x: int| 0 <= x < b.len() implies mids_ok((#[trigger] b[x]).1) by {
                if x != i {
                    assert(mids_ok(n[x].1));
                }
            }
            let j = place_of(after, f.1)->Some_0;
            let k = tail_place(after[j].1, f.2)->Some_0;
            assert(nested_cell(b, i, j, k) == f);
        },
    }
}

/// Storing a tail under a mid leaves well-formed mids well formed, with the tail under the mid.
proof fn lemma_mids_added_ok(mids: MidsView, m: Seq<char>, t: Seq<char>)
    requires
        mids_ok(mids),
    ensures
        mids_ok(mids_added(mids, m, t)),
        place_of(mids_added(mids, m, t), m) matches Some(j) && tail_place(mids_added(mids, m, t)[j].1, t) is Some,
{
    let after = mids_added(mids, m, t);
    match place_of(mids, m) {
        None => {
            let last = mids.len() as int;
            assert(tails_ok(seq![t]));
            assert forall|j: int, j2: int| 0 <= j < j2 < after.len() implies (#[trigger] after[j]).0 != (
            #[trigger] after[j2]).0 by {
                if j2 < last {
                    assert(mids[j].0 != mids[j2].0);
                } else {
                    assert(mids[j].0 != m);
                }
            }
            assert forall|j: int| 0 <= j < after.len() implies tails_ok((#[trigger] after[j]).1) by {
                if j < last {
                    assert(tails_ok(mids[j].1));
                }
            }
            lemma_place(after, m, last);
            assert(after[last].1[0] == t);
        },
        Some(j) => {
            assert(tails_ok(mids[j].1));
            if tail_place(mids[j].1, t) is Some {
            } else {
                let tails = mids[j].1;
                let more = tails.push(t);
                assert forall|k: int, k2: int| 0 <= k < k2 < more.len() implies #[trigger] more[k] != #[trigger] more[k2] by {
                    if k2 < tails.len() {
                        assert(tails[k] != tails[k2]);
                    } else {
                        assert(tails[k] != t);
                    }
                }
                assert forall|x: int, x2: int| 0 <= x < x2 < after.len() implies (#[trigger] after[x]).0 != (
                #[trigger] after[x2]).0 by {
                    assert(mids[x].0 != mids[x2].0);
                }
                assert forall|x: int| 0 <= x < after.len() implies tails_ok((#[trigger] after[x]).1) by {
                    if x != j {
                        assert(tails_ok(mids[x].1));
                    }
                }
                lemma_place(after, m, j);
                assert(more[tails.len() as int] == t);
            }
        },
    }
}

/// Storing a triple a second time changes nothing.
pub proof fn law_added_twice(n: NestedView, f: Fact)
    requires
        nested_ok(n),
    ensures
        added(added(n, f), f) == added(n, f),
{
    law_added_ok(n, f);
    law_added_when_held(added(n, f), f);
}

/// Removing a tail that was stored under a mid where it was not before gives the mids back.
proof fn lemma_mids_erased_added(mids: MidsView, m: Seq<char>, t: Seq<char>)
    requires
        mids_ok(mids),
        !(place_of(mids, m) matches Some(j) && tail_place(mids[j].1, t) is Some),
    ensures
        mids_erased(mids_added(mids, m, t), m, t) == mids,
{
    let after = mids_added(mids, m, t);
    lemma_mids_added_ok(mids, m, t);
    match place_of(mids, m) {
        None => {
            let last = mids.len() as int;
            lemma_place(after, m, last);
            assert(tails_ok(seq![t]));
            lemma_tail_place(seq![t], t, 0);
            assert(after.remove(last) =~= mids);
        },
        Some(j) => {
            let tails = mids[j].1;
            let more = tails.push(t);
            assert(tails_ok(tails));
            lemma_place(after, m, j);
            assert(tails_ok(more)) by {
                assert(mids_ok(after));
            }
            lemma_tail_place(more, t, tails.len() as int);
            assert(more.remove(tails.len() as int) =~= tails);
            assert(after.update(j, (after[j].0, tails)) =~= mids);
        },
    }
}

/// Storing a triple that a well-formed index does not hold and removing it
/// again gives the index back as it was, place for place.
pub proof fn law_erased_added(n: NestedView, f: Fact)
    requires
        nested_ok(n),
        !nested_holds(n, f),
    ensures
        erased(added(n, f), f) == n,
{
    let b = added(n, f);
    lemma_holds_by_place(n, f);
    law_added_ok(n, f);
    match place_of(n, f.0) {
        None => {
            let last = n.len() as int;
            lemma_place(b, f.0, last);
            let one = seq![(f.1, seq![f.2])];
            assert(mids_ok(one)) by {
                assert(tails_ok(seq![f.2]));
            }
            lemma_place(one, f.1, 0);
            lemma_tail_place(seq![f.2], f.2, 0);
            assert(mids_erased(one, f.1, f.2) =~= Seq::<(Seq<char>, TailsView)>::empty());
            assert(b.remove(last) =~= n);
        },
        Some(i) => {
            let mids = n[i].1;
            assert(mids_ok(mids));
            lemma_place(b, f.0, i);
            lemma_mids_erased_added(mids, f.1, f.2);
            assert(b.update(i, (b[i].0, mids)) =~= n);
        },
    }
}

} // verus!
