//! Cursors that walk an index, or the graph's subject-first index, triple by
//! triple: every triple held is handed out once, in the order of the listing.

use vstd::prelude::*;
use crate::graph::Graph;
use crate::triple::{remaining_first, Triple};
use crate::triple_store::{head_rows, mid_rows, mids_wf, tail_rows, tails_wf, Mids, TripleStore};

verus! {

/// How many triples the listing of `store` holds before the one at head i, mid j, tail k.
/// A cursor behind the last head stands behind the whole listing.
pub open spec fn rank(store: TripleStore, i: int, j: int, k: int) -> int {
    if 0 <= i < store.0@.len() {
        head_rows(store.0@.take(i)).len() + mid_rows(store.0@[i].0@, store.0@[i].1@.take(j)).len() + k
    } else {
        head_rows(store.0@).len() as int
    }
}

/// Whether (i, j, k) is a place at which a cursor over `store` can stand: at
/// a triple, or behind the last head.
pub open spec fn cursor_ok(store: TripleStore, i: int, j: int, k: int) -> bool {
    &&& store.wf()
    &&& (i == store.0@.len() && j == 0 && k == 0) || store.in_range(i, j, k)
}

/// Hands out the triple at the cursor and moves the cursor to the next
/// triple: the next tail, else the first tail of the next mid, else that of
/// the next head. Behind the last head there is nothing to hand out.
fn step(store: &TripleStore, ch: usize, cm: usize, ct: usize) -> (r: (Option<Triple>, usize, usize, usize))
    requires
        cursor_ok(*store, ch as int, cm as int, ct as int),
    ensures
        cursor_ok(*store, r.1 as int, r.2 as int, r.3 as int),
        r.0.deep_view() == remaining_first(store.rows(), rank(*store, ch as int, cm as int, ct as int)),
        rank(*store, r.1 as int, r.2 as int, r.3 as int) == (if rank(*store, ch as int, cm as int, ct as int)
            < store.rows().len() {
            rank(*store, ch as int, cm as int, ct as int) + 1
        } else {
            rank(*store, ch as int, cm as int, ct as int)
        }),
        0 <= rank(*store, ch as int, cm as int, ct as int) <= store.rows().len(),
{
    if ch == store.0.len() {
        return (None, ch, cm, ct);
    }
    proof {
        lemma_rank(*store, ch as int, cm as int, ct as int);
        assert(mids_wf(store.0@[ch as int].1@));
    }
    let head = store.0[ch].0.clone();
    let mid = store.0[ch].1[cm].0.clone();
    let tail = store.0[ch].1[cm].1[ct].clone();
    if ct == store.0[ch].1[cm].1.len() - 1 {
        if cm == store.0[ch].1.len() - 1 {
            proof {
                if ch + 1 < store.0@.len() {
                    assert(mids_wf(store.0@[ch + 1].1@));
                    assert(tails_wf(store.0@[ch + 1].1@[0].1@));
                }
            }
            (Some((head, mid, tail)), ch + 1, 0, 0)
        } else {
            proof {
                assert(tails_wf(store.0@[ch as int].1@[cm + 1].1@));
            }
            (Some((head, mid, tail)), ch, cm + 1, 0)
        }
    } else {
        (Some((head, mid, tail)), ch, cm, ct + 1)
    }
}

/// The listing up to and with the head at place i is the listing before it and then that head's triples.
proof fn lemma_heads_take(heads: Seq<(String, Mids)>, i: int)
    requires
        0 <= i < heads.len(),
    ensures
        head_rows(heads.take(i + 1)) == head_rows(heads.take(i)) + mid_rows(heads[i].0@, heads[i].1@),
{
    let next = heads.take(i + 1);
    assert(next.drop_last() =~= heads.take(i));
    assert(next.last() == heads[i]);
}

/// The triples of a head up to and with the mid at place j are those before it and then that mid's triples.
proof fn lemma_mids_take(h: Seq<char>, mids: Seq<(String, Vec<String>)>, j: int)
    requires
        0 <= j < mids.len(),
    ensures
        mid_rows(h, mids.take(j + 1)) == mid_rows(h, mids.take(j)) + tail_rows(h, mids[j].0@, mids[j].1@),
{
    let next = mids.take(j + 1);
    assert(next.drop_last() =~= mids.take(j));
    assert(next.last() == mids[j]);
}

/// The listing of the first n heads begins the listing of the first m.
proof fn lemma_heads_prefix(heads: Seq<(String, Mids)>, n: int, m: int)
    requires
        0 <= n <= m <= heads.len(),
    ensures
        head_rows(heads.take(n)).len() <= head_rows(heads.take(m)).len(),
        forall|x: int|
            0 <= x < head_rows(heads.take(n)).len() ==> head_rows(heads.take(m))[x] == #[trigger] head_rows(
                heads.take(n),
            )[x],
    decreases m - n,
{
    if n < m {
        lemma_heads_prefix(heads, n, m - 1);
        lemma_heads_take(heads, m - 1);
    }
}

/// The triples of the first n mids begin those of the first m.
proof fn lemma_mids_prefix(h: Seq<char>, mids: Seq<(String, Vec<String>)>, n: int, m: int)
    requires
        0 <= n <= m <= mids.len(),
    ensures
        mid_rows(h, mids.take(n)).len() <= mid_rows(h, mids.take(m)).len(),
        forall|x: int|
            0 <= x < mid_rows(h, mids.take(n)).len() ==> mid_rows(h, mids.take(m))[x] == #[trigger] mid_rows(
                h,
                mids.take(n),
            )[x],
    decreases m - n,
{
    if n < m {
        lemma_mids_prefix(h, mids, n, m - 1);
        lemma_mids_take(h, mids, m - 1);
    }
}

/// The triple at a place of the index stands in the listing at the rank of
/// that place, and the place that follows has the next rank.
pub proof fn lemma_rank(store: TripleStore, i: int, j: int, k: int)
    requires
        store.wf(),
        store.in_range(i, j, k),
    ensures
        0 <= rank(store, i, j, k) < store.rows().len(),
        store.rows()[rank(store, i, j, k)] == store.cell(i, j, k),
        k + 1 < store.0@[i].1@[j].1@.len() ==> rank(store, i, j, k + 1) == rank(store, i, j, k) + 1,
        k + 1 == store.0@[i].1@[j].1@.len() && j + 1 < store.0@[i].1@.len() ==> rank(store, i, j + 1, 0) == rank(
            store,
            i,
            j,
            k,
        ) + 1,
        k + 1 == store.0@[i].1@[j].1@.len() && j + 1 == store.0@[i].1@.len() ==> rank(store, i + 1, 0, 0) == rank(
            store,
            i,
            j,
            k,
        ) + 1,
{
    let heads = store.0@;
    let h = heads[i].0@;
    let mids = heads[i].1@;
    let tails = mids[j].1@;
    let before_heads = head_rows(heads.take(i));
    let before_mids = mid_rows(h, mids.take(j));
    let these = tail_rows(h, mids[j].0@, tails);
    lemma_heads_take(heads, i);
    lemma_mids_take(h, mids, j);
    lemma_heads_prefix(heads, i + 1, heads.len() as int);
    lemma_mids_prefix(h, mids, j + 1, mids.len() as int);
    assert(heads.take(heads.len() as int) =~= heads);
    assert(mids.take(mids.len() as int) =~= mids);
    let upto_mid = mid_rows(h, mids.take(j + 1));
    let upto_head = head_rows(heads.take(i + 1));
    let r = rank(store, i, j, k);
    assert(upto_mid == before_mids + these);
    assert(upto_mid[before_mids.len() + k] == these[k]);
    assert(mid_rows(h, mids)[before_mids.len() + k] == upto_mid[before_mids.len() + k]);
    assert(upto_head == before_heads + mid_rows(h, mids));
    assert(upto_head[r] == mid_rows(h, mids)[before_mids.len() + k]);
    assert(store.rows()[r] == upto_head[r]);
    if k + 1 == tails.len() && j + 1 < mids.len() {
        assert(mids.take(0) =~= Seq::<(String, Vec<String>)>::empty());
    }
    if k + 1 == tails.len() && j + 1 == mids.len() {
        assert(mids.take(j + 1) =~= mids);
        if i + 1 < heads.len() {
            assert(heads[i + 1].1@.take(0) =~= Seq::<(String, Vec<String>)>::empty());
        } else {
            assert(heads.take(i + 1) =~= heads);
        }
    }
}

/// A cursor over an index that hands out its triples in the order of the listing.
#[derive(Clone, Debug, PartialEq)]
pub struct TripleStoreRefIterator<'a> {
    pub store: &'a TripleStore,
    pub curr_head: usize,
    pub curr_mid: usize,
    pub curr_tail: usize,
}

impl<'a> TripleStoreRefIterator<'a> {
    /// The cursor stands at a triple of a well-formed index, or behind the last.
    pub open spec fn wf(&self) -> bool {
        cursor_ok(*self.store, self.curr_head as int, self.curr_mid as int, self.curr_tail as int)
    }

    /// How many triples have been handed out.
    pub open spec fn position(&self) -> int {
        rank(*self.store, self.curr_head as int, self.curr_mid as int, self.curr_tail as int)
    }

    /// The next triple of the listing, or nothing when all have been handed out.
    pub fn next(&mut self) -> (r: Option<Triple>)
        requires
            old(self).wf(),
        ensures
            final(self).wf(),
            final(self).store == old(self).store,
            0 <= old(self).position() <= old(self).store.rows().len(),
            r.deep_view() == remaining_first(old(self).store.rows(), old(self).position()),
            final(self).position() == (if old(self).position() < old(self).store.rows().len() {
                old(self).position() + 1
            } else {
                old(self).position()
            }),
    {
        let (r, ch, cm, ct) = step(self.store, self.curr_head, self.curr_mid, self.curr_tail);
        self.curr_head = ch;
        self.curr_mid = cm;
        self.curr_tail = ct;
        r
    }
}

/// A cursor that owns an index and hands out its triples in the order of the listing.
#[derive(Clone, Debug, PartialEq)]
pub struct TripleStoreIterator {
    pub store: TripleStore,
    pub curr_head: usize,
    pub curr_mid: usize,
    pub curr_tail: usize,
}

impl TripleStoreIterator {
    /// The cursor stands at a triple of a well-formed index, or behind the last.
    pub open spec fn wf(&self) -> bool {
        cursor_ok(self.store, self.curr_head as int, self.curr_mid as int, self.curr_tail as int)
    }

    /// How many triples have been handed out.
    pub open spec fn position(&self) -> int {
        rank(self.store, self.curr_head as int, self.curr_mid as int, self.curr_tail as int)
    }

    /// The next triple of the listing, or nothing when all have been handed out.
    pub fn next(&mut self) -> (r: Option<Triple>)
        requires
            old(self).wf(),
        ensures
            final(self).wf(),
            final(self).store == old(self).store,
            0 <= old(self).position() <= old(self).store.rows().len(),
            r.deep_view() == remaining_first(old(self).store.rows(), old(self).position()),
            final(self).position() == (if old(self).position() < old(self).store.rows().len() {
                old(self).position() + 1
            } else {
                old(self).position()
            }),
    {
        let (r, ch, cm, ct) = step(&self.store, self.curr_head, self.curr_mid, self.curr_tail);
        self.curr_head = ch;
        self.curr_mid = cm;
        self.curr_tail = ct;
        r
    }
}

impl TripleStore {
    /// A cursor at the first triple of the listing.
    pub fn iter(&self) -> (r: TripleStoreRefIterator<'_>)
        requires
            self.wf(),
        ensures
            r.wf(),
            r.store == self,
            r.position() == 0,
    {
        proof {
            lemma_first_place(*self);
        }
        TripleStoreRefIterator { store: self, curr_head: 0, curr_mid: 0, curr_tail: 0 }
    }

    /// A cursor that owns the index, at the first triple of the listing.
    pub fn into_iter(self) -> (r: TripleStoreIterator)
        requires
            self.wf(),
        ensures
            r.wf(),
            r.store == self,
            r.position() == 0,
    {
        proof {
            lemma_first_place(self);
        }
        TripleStoreIterator { store: self, curr_head: 0, curr_mid: 0, curr_tail: 0 }
    }
}

/// The first place of an index is where a cursor starts, and nothing comes before it.
proof fn lemma_first_place(store: TripleStore)
    requires
        store.wf(),
    ensures
        cursor_ok(store, 0, 0, 0),
        rank(store, 0, 0, 0) == 0,
{
    if store.0@.len() > 0 {
        assert(mids_wf(store.0@[0].1@));
        assert(tails_wf(store.0@[0].1@[0].1@));
        assert(store.0@.take(0) =~= Seq::<(String, Mids)>::empty());
        assert(store.0@[0].1@.take(0) =~= Seq::<(String, Vec<String>)>::empty());
    }
}

/// A cursor over the triples of a graph, each handed out as (subject, predicate, object).
pub struct GraphRefIterator<'a> {
    pub triple_store_iter: TripleStoreRefIterator<'a>,
}

impl<'a> GraphRefIterator<'a> {
    /// The next triple of the graph, or nothing when all have been handed out.
    pub fn next(&mut self) -> (r: Option<Triple>)
        requires
            old(self).triple_store_iter.wf(),
        ensures
            final(self).triple_store_iter.wf(),
            final(self).triple_store_iter.store == old(self).triple_store_iter.store,
            r.deep_view() == remaining_first(
                old(self).triple_store_iter.store.rows(),
                old(self).triple_store_iter.position(),
            ),
            final(self).triple_store_iter.position() == (if old(self).triple_store_iter.position() < old(
                self,
            ).triple_store_iter.store.rows().len() {
                old(self).triple_store_iter.position() + 1
            } else {
                old(self).triple_store_iter.position()
            }),
    {
        self.triple_store_iter.next()
    }
}

/// A cursor that owns the triples of a graph, each handed out as (subject, predicate, object).
pub struct GraphIterator {
    pub triple_store_iter: TripleStoreIterator,
}

impl GraphIterator {
    /// The next triple of the graph, or nothing when all have been handed out.
    pub fn next(&mut self) -> (r: Option<Triple>)
        requires
            old(self).triple_store_iter.wf(),
        ensures
            final(self).triple_store_iter.wf(),
            final(self).triple_store_iter.store == old(self).triple_store_iter.store,
            r.deep_view() == remaining_first(
                old(self).triple_store_iter.store.rows(),
                old(self).triple_store_iter.position(),
            ),
            final(self).triple_store_iter.position() == (if old(self).triple_store_iter.position() < old(
                self,
            ).triple_store_iter.store.rows().len() {
                old(self).triple_store_iter.position() + 1
            } else {
                old(self).triple_store_iter.position()
            }),
    {
        self.triple_store_iter.next()
    }
}

impl Graph {
    /// A cursor over the triples of the graph, by way of the subject-first
    /// index. It can be made again at any time and ends after as many triples
    /// as the graph holds.
    pub fn iter(&self) -> (r: TripleStoreRefIterator<'_>)
        requires
            self.wf(),
        ensures
            r.wf(),
            r.store == &self.spo,
            r.position() == 0,
            r.store.rows().no_duplicates(),
            forall|f: (Seq<char>, Seq<char>, Seq<char>)| #[trigger] r.store.rows().contains(f) <==> self@.contains(f),
    {
        proof {
            crate::triple_store::lemma_rows_of_heads(self.spo);
        }
        self.spo.iter()
    }

    /// A cursor over the triples of the graph.
    pub fn ref_iter(&self) -> (r: GraphRefIterator<'_>)
        requires
            self.wf(),
        ensures
            r.triple_store_iter.wf(),
            r.triple_store_iter.store == &self.spo,
            r.triple_store_iter.position() == 0,
    {
        GraphRefIterator { triple_store_iter: self.spo.iter() }
    }

    /// A cursor that owns the triples of the graph.
    pub fn into_iter(self) -> (r: GraphIterator)
        requires
            self.wf(),
        ensures
            r.triple_store_iter.wf(),
            r.triple_store_iter.store == self.spo,
            r.triple_store_iter.position() == 0,
    {
        GraphIterator { triple_store_iter: self.spo.into_iter() }
    }
}

} // verus!
