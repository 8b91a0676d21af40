//! Multi-hop path queries: a pattern of alternating node and edge positions
//! is resolved hop by hop, every partial row being carried forward and
//! copied where a hop has several continuations.

use vstd::prelude::*;
use crate::graph::Graph;
use crate::triple::{position_matches, Double, Fact, QueryChain, Triple};

verus! {

/// A row of values as contracts see it.
pub type Walk = Seq<Seq<char>>;

/// A path pattern as contracts see it: per position a value, or nothing where it is open.
pub type Chain = Seq<Option<Seq<char>>>;

/// The hop that starts at the node with the number `i`: node, edge, next node.
pub open spec fn hop(w: Walk, i: int) -> Fact {
    (w[2 * i], w[2 * i + 1], w[2 * i + 2])
}

/// Whether the first `n` values of `w` agree with the pattern wherever it is bound.
pub open spec fn respects(q: Chain, w: Walk, n: int) -> bool {
    forall|i: int| 0 <= i < n ==> position_matches(#[trigger] q[i], w[i])
}

impl Graph {
    /// Whether some triple has the subject `s`.
    pub open spec fn has_subject(&self, s: Seq<char>) -> bool {
        self.spo.has_head(s)
    }

    /// Whether some triple has the subject `s` and the predicate `p`.
    pub open spec fn has_edge(&self, s: Seq<char>, p: Seq<char>) -> bool {
        self.spo.has_pair(s, p)
    }

    /// Whether every hop that lies within the first `n` values of `w` is a triple of the graph.
    pub open spec fn hops(&self, w: Walk, n: int) -> bool {
        forall|i: int| 0 <= i && 2 * i + 2 < n ==> self@.contains(#[trigger] hop(w, i))
    }

    /// Whether `w` has `n` values that agree with the pattern and are joined by triples of the graph.
    pub open spec fn walk_upto(&self, q: Chain, w: Walk, n: int) -> bool {
        &&& w.len() == n
        &&& respects(q, w, n)
        &&& self.hops(w, n)
    }

    /// Whether `w` answers the path pattern `q`: one value per position, equal
    /// to the pattern's wherever that is bound, every node joined to the next
    /// by a triple whose predicate is the edge between them. A pattern of one
    /// position asks for a subject; a pattern that ends on an edge asks that
    /// the last node have that edge.
    pub open spec fn is_walk(&self, q: Chain, w: Walk) -> bool {
        &&& q.len() > 0
        &&& self.walk_upto(q, w, q.len() as int)
        &&& q.len() == 1 ==> self.has_subject(w[0])
        &&& q.len() % 2 == 0 ==> self.has_edge(w[q.len() - 2], w[q.len() - 1])
    }

    /// Whether `suffix` may follow a row that ends in the node `last`: as edge
    /// and next node of a triple (`full`), or as an edge alone.
    pub open spec fn admits(
        &self,
        last: Seq<char>,
        mid: Option<Seq<char>>,
        tail: Option<Seq<char>>,
        full: bool,
        suffix: Walk,
    ) -> bool {
        if full {
            &&& suffix.len() == 2
            &&& position_matches(mid, suffix[0])
            &&& position_matches(tail, suffix[1])
            &&& self@.contains((last, suffix[0], suffix[1]))
        } else {
            &&& suffix.len() == 1
            &&& position_matches(mid, suffix[0])
            &&& self.has_edge(last, suffix[0])
        }
    }

    /// Whether `w` is a row of `rows`, all of length `n`, with a suffix that the row admits.
    pub open spec fn grown(
        &self,
        rows: Seq<Walk>,
        n: int,
        mid: Option<Seq<char>>,
        tail: Option<Seq<char>>,
        full: bool,
        w: Walk,
    ) -> bool {
        &&& w.len() == n + (if full {
            2int
        } else {
            1int
        })
        &&& rows.contains(w.take(n))
        &&& self.admits(w[n - 1], mid, tail, full, w.skip(n))
    }

    /// Lists the subjects that the pattern admits, each once.
    pub fn get_subject(&self, s: &Option<String>) -> (r: Vec<String>)
        requires
            self.wf(),
        ensures
            r.deep_view().no_duplicates(),
            forall|x: Seq<char>| #[trigger]
                r.deep_view().contains(x) <==> position_matches(s.deep_view(), x) && self.has_subject(x),
    {
        self.spo.get_single(s)
    }

    /// Resolves a path pattern: positions alternate between nodes and edges,
    /// a bound position must be matched and an open one is solved. The rows
    /// returned are exactly the walks through the graph that answer the
    /// pattern, each once; an empty pattern has no rows.
    pub fn get(&self, q: QueryChain) -> (r: Vec<Vec<String>>)
        requires
            self.wf(),
        ensures
            r.deep_view().no_duplicates(),
            forall|w: Walk| #[trigger] r.deep_view().contains(w) <==> self.is_walk(q.deep_view(), w),
    {
        let q_len = q.len();
        let ghost qv = q.deep_view();
        if q_len == 0 {
            let r: Vec<Vec<String>> = Vec::new();
            proof {
                assert(r.deep_view() =~= Seq::<Walk>::empty());
            }
            return r;
        }
        if q_len == 1 {
            let found = self.spo.get_single(&q[0]);
            let r = rows_of_singles(&found);
            proof {
                lemma_rows_of_singles(found.deep_view());
                assert forall|w: Walk| #[trigger] r.deep_view().contains(w) <==> self.is_walk(qv, w) by {
                    if r.deep_view().contains(w) {
                        assert(found.deep_view().contains(w[0]));
                    }
                    if self.is_walk(qv, w) {
                        assert(position_matches(qv[0], w[0]));
                        assert(found.deep_view().contains(w[0]));
                        assert(w =~= seq![w[0]]);
                    }
                }
            }
            return r;
        }
        if q_len == 2 {
            let found = self.spo.get_double(&(q[0].clone(), q[1].clone()));
            let r = rows_of_doubles(&found);
            proof {
                lemma_rows_of_doubles(found.deep_view());
                assert forall|w: Walk| #[trigger] r.deep_view().contains(w) <==> self.is_walk(qv, w) by {
                    if r.deep_view().contains(w) {
                        assert(found.deep_view().contains((w[0], w[1])));
                    }
                    if self.is_walk(qv, w) {
                        assert(position_matches(qv[0], w[0]));
                        assert(position_matches(qv[1], w[1]));
                        assert(found.deep_view().contains((w[0], w[1])));
                        assert(w =~= seq![w[0], w[1]]);
                    }
                }
            }
            return r;
        }
        let seed = self.get_triple(&(q[0].clone(), q[1].clone(), q[2].clone()));
        let mut rows = rows_of_triples(&seed);
        let mut n: usize = 3;
        proof {
            lemma_rows_of_triples(seed.deep_view());
            assert forall|w: Walk| #[trigger] rows.deep_view().contains(w) <==> self.walk_upto(qv, w, 3) by {
                if rows.deep_view().contains(w) {
                    assert(seed.deep_view().contains((w[0], w[1], w[2])));
                    assert(hop(w, 0) == (w[0], w[1], w[2]));
                }
                if self.walk_upto(qv, w, 3) {
                    assert(position_matches(qv[0], w[0]));
                    assert(position_matches(qv[1], w[1]));
                    assert(position_matches(qv[2], w[2]));
                    assert(self@.contains(hop(w, 0)));
                    assert(seed.deep_view().contains((w[0], w[1], w[2])));
                    assert(w =~= seq![w[0], w[1], w[2]]);
                }
            }
        }
        while q_len - n >= 2
            invariant
                self.wf(),
                qv == q.deep_view(),
                q_len == q@.len(),
                3 <= n <= q_len,
                n % 2 == 1,
                rows.deep_view().no_duplicates(),
                forall|i: int| 0 <= i < rows.deep_view().len() ==> (#[trigger] rows.deep_view()[i]).len() == n,
                forall|w: Walk| #[trigger] rows.deep_view().contains(w) <==> self.walk_upto(qv, w, n as int),
            decreases q_len - n,
        {
            let ghost before = rows.deep_view();
            self.extend_rows(&mut rows, n, n + 2, &q[n], &q[n + 1], true);
            proof {
                assert forall|w: Walk| #[trigger]
                    rows.deep_view().contains(w) <==> self.walk_upto(qv, w, n + 2) by {
                    lemma_hop_step(*self, qv, before, n as int, w);
                }
                assert forall|i: int| 0 <= i < rows.deep_view().len() implies (#[trigger] rows.deep_view()[i]).len()
                    == n + 2 by {
                    assert(rows.deep_view().contains(rows.deep_view()[i]));
                }
            }
            n += 2;
        }
        if q_len % 2 == 0 {
            let ghost before = rows.deep_view();
            self.extend_rows(&mut rows, n, n + 1, &q[n], &None, false);
            proof {
                assert forall|w: Walk| #[trigger] rows.deep_view().contains(w) <==> self.is_walk(qv, w) by {
                    lemma_edge_step(*self, qv, before, n as int, w);
                }
            }
        } else {
            proof {
                assert forall|w: Walk| #[trigger] rows.deep_view().contains(w) <==> self.is_walk(qv, w) by {
                    if self.walk_upto(qv, w, n as int) {
                        assert(self@.contains(hop(w, 0)));
                    }
                }
            }
        }
        proof {
            assert forall|i: int, j: int|
                0 <= i < j < rows.deep_view().len() && rows.deep_view()[i].len() == q_len && rows.deep_view()[j].len()
                    == q_len implies rows.deep_view()[i] != rows.deep_view()[j] by {}
        }
        keep_rows_of_len(&rows, q_len)
    }

    /// Lists what may follow a row that ends in the node `last`, each continuation once.
    fn suffixes(&self, last: String, mid: &Option<String>, tail: &Option<String>, full: bool) -> (r: Vec<
        Vec<String>,
    >)
        requires
            self.wf(),
        ensures
            r.deep_view().no_duplicates(),
            forall|x: Walk| #[trigger]
                r.deep_view().contains(x) <==> self.admits(last@, mid.deep_view(), tail.deep_view(), full, x),
    {
        let ghost l = last@;
        if full {
            let found = self.get_triple(&(Some(last), mid.clone(), tail.clone()));
            let r = hop_suffixes(&found);
            proof {
                let fv = found.deep_view();
                let rv = r.deep_view();
                assert forall|x: Walk| #[trigger] rv.contains(x) <==> self.admits(
                    l,
                    mid.deep_view(),
                    tail.deep_view(),
                    full,
                    x,
                ) by {
                    if rv.contains(x) {
                        let c = choose|c: int| 0 <= c < rv.len() && rv[c] == x;
                        assert(fv.contains(fv[c]));
                    }
                    if self.admits(l, mid.deep_view(), tail.deep_view(), full, x) {
                        let f: Fact = (l, x[0], x[1]);
                        assert(fv.contains(f));
                        let c = choose|c: int| 0 <= c < fv.len() && fv[c] == f;
                        assert(rv[c] =~= x);
                    }
                }
                assert forall|c: int, d: int| 0 <= c < rv.len() && 0 <= d < rv.len() && c != d implies rv[c]
                    != rv[d] by {
                    assert(fv.contains(fv[c]));
                    assert(fv.contains(fv[d]));
                    assert(fv[c] != fv[d]);
                    if rv[c] == rv[d] {
                        assert(rv[c][0] == rv[d][0]);
                        assert(rv[c][1] == rv[d][1]);
                    }
                }
            }
            r
        } else {
            let found = self.spo.get_double(&(Some(last), mid.clone()));
            let r = edge_suffixes(&found);
            proof {
                let fv = found.deep_view();
                let rv = r.deep_view();
                assert forall|x: Walk| #[trigger] rv.contains(x) <==> self.admits(
                    l,
                    mid.deep_view(),
                    tail.deep_view(),
                    full,
                    x,
                ) by {
                    if rv.contains(x) {
                        let c = choose|c: int| 0 <= c < rv.len() && rv[c] == x;
                        assert(fv.contains(fv[c]));
                    }
                    if self.admits(l, mid.deep_view(), tail.deep_view(), full, x) {
                        let d = (l, x[0]);
                        assert(fv.contains(d));
                        let c = choose|c: int| 0 <= c < fv.len() && fv[c] == d;
                        assert(rv[c] =~= x);
                    }
                }
                assert forall|c: int, d: int| 0 <= c < rv.len() && 0 <= d < rv.len() && c != d implies rv[c]
                    != rv[d] by {
                    assert(fv.contains(fv[c]));
                    assert(fv.contains(fv[d]));
                    assert(fv[c] != fv[d]);
                    if rv[c] == rv[d] {
                        assert(rv[c][0] == rv[d][0]);
                    }
                }
            }
            r
        }
    }

    /// One step of the join. Every row, all of length `n`, is looked at once:
    /// where the graph has no continuation for it the row stays as it is;
    /// where it has one, the row is extended in place; where it has more,
    /// the row as it was is copied once for each further continuation and each
    /// copy extended. Then the rows that did not reach the new length `m` are dropped.
    fn extend_rows(
        &self,
        rows: &mut Vec<Vec<String>>,
        n: usize,
        m: usize,
        mid: &Option<String>,
        tail: &Option<String>,
        full: bool,
    )
        requires
            self.wf(),
            n >= 1,
            m == n + (if full {
                2int
            } else {
                1int
            }),
            old(rows).deep_view().no_duplicates(),
            forall|i: int| 0 <= i < old(rows).deep_view().len() ==> (#[trigger] old(rows).deep_view()[i]).len() == n,
        ensures
            final(rows).deep_view().no_duplicates(),
            forall|w: Walk| #[trigger]
                final(rows).deep_view().contains(w) <==> self.grown(
                    old(rows).deep_view(),
                    n as int,
                    mid.deep_view(),
                    tail.deep_view(),
                    full,
                    w,
                ),
    {
        let ghost before = rows.deep_view();
        let ghost qm = mid.deep_view();
        let ghost qt = tail.deep_view();
        let count = rows.len();
        let mut r: usize = 0;
        proof {
            assert(before.take(0) =~= Seq::<Walk>::empty());
        }
        while r < count
            invariant
                self.wf(),
                n >= 1,
                m == n + (if full {
                    2int
                } else {
                    1int
                }),
                qm == mid.deep_view(),
                qt == tail.deep_view(),
                before.no_duplicates(),
                forall|i: int| 0 <= i < before.len() ==> (#[trigger] before[i]).len() == n,
                r <= count == before.len() <= rows.deep_view().len(),
                forall|i: int| r <= i < count ==> #[trigger] rows.deep_view()[i] == before[i],
                forall|i: int|
                    0 <= i < rows.deep_view().len() ==> (#[trigger] rows.deep_view()[i]).len() == n || self.grown(
                        before.take(r as int),
                        n as int,
                        qm,
                        qt,
                        full,
                        rows.deep_view()[i],
                    ),
                forall|w: Walk| #[trigger]
                    self.grown(before.take(r as int), n as int, qm, qt, full, w) ==> rows.deep_view().contains(w),
                forall|i: int, j: int|
                    0 <= i < j < rows.deep_view().len() && (#[trigger] rows.deep_view()[i]).len() != n && (
                    #[trigger] rows.deep_view()[j]).len() != n ==> rows.deep_view()[i] != rows.deep_view()[j],
            decreases count - r,
        {
            let ghost cur = rows.deep_view();
            proof {
                assert(cur[r as int] == before[r as int]);
                assert(cur[r as int].len() == rows@[r as int]@.len());
            }
            let last = rows[r][n - 1].clone();
            let found = self.suffixes(last, mid, tail, full);
            if found.len() > 0 {
                fan_out(rows, r, &found);
            }
            proof {
                lemma_fan_out_step(
                    *self,
                    before,
                    cur,
                    rows.deep_view(),
                    r as int,
                    n as int,
                    qm,
                    qt,
                    full,
                    found.deep_view(),
                );
            }
            r += 1;
        }
        proof {
            assert(before.take(r as int) =~= before);
        }
        let ghost all = rows.deep_view();
        let kept = keep_rows_of_len(rows, m);
        *rows = kept;
        proof {
            assert forall|w: Walk| #[trigger] rows.deep_view().contains(w) <==> self.grown(
                before,
                n as int,
                qm,
                qt,
                full,
                w,
            ) by {
                if rows.deep_view().contains(w) {
                    let i = choose|i: int| 0 <= i < all.len() && all[i] == w;
                    assert(all[i].len() == n || self.grown(before, n as int, qm, qt, full, all[i]));
                }
            }
        }
    }
}

/// Extends the row at `r` by the first suffix and appends, for every further
/// suffix, a copy of the row as it was, extended by that suffix.
fn fan_out(rows: &mut Vec<Vec<String>>, r: usize, found: &Vec<Vec<String>>)
    requires
        r < old(rows)@.len(),
        found@.len() > 0,
    ensures
        final(rows).deep_view() == fanned(old(rows).deep_view(), r as int, found.deep_view()),
{
    let ghost before = rows.deep_view();
    let ghost fv = found.deep_view();
    let old_t = rows[r].clone();
    proof {
        assert(old_t.deep_view() =~= before[r as int]);
    }
    append_all(&mut rows[r], &found[0]);
    let ghost first = rows.deep_view();
    proof {
        assert(first =~= before.update(r as int, before[r as int] + fv[0]));
    }
    let mut c: usize = 1;
    while c < found.len()
        invariant
            1 <= c <= found@.len(),
            fv == found.deep_view(),
            r < before.len(),
            old_t.deep_view() == before[r as int],
            first == before.update(r as int, before[r as int] + fv[0]),
            rows.deep_view() == first + Seq::new((c - 1) as nat, |x: int| before[r as int] + fv[x + 1]),
        decreases found@.len() - c,
    {
        let ghost prev = rows.deep_view();
        let mut copy = old_t.clone();
        proof {
            assert(copy.deep_view() =~= before[r as int]);
        }
        append_all(&mut copy, &found[c]);
        rows.push(copy);
        proof {
            assert(rows.deep_view() =~= prev.push(before[r as int] + fv[c as int]));
            assert(rows.deep_view() =~= first + Seq::new(c as nat, |x: int| before[r as int] + fv[x + 1]));
        }
        c += 1;
    }
}

/// The rows after one row has been extended by the first suffix and copies
/// of it, extended by the other suffixes, have been appended.
pub open spec fn fanned(rows: Seq<Walk>, r: int, found: Seq<Walk>) -> Seq<Walk> {
    rows.update(r, rows[r] + found[0]) + Seq::new((found.len() - 1) as nat, |x: int| rows[r] + found[x + 1])
}

/// Appends the values of `suffix` to `row`.
fn append_all(row: &mut Vec<String>, suffix: &Vec<String>)
    ensures
        final(row).deep_view() == old(row).deep_view() + suffix.deep_view(),
{
    let ghost before = row.deep_view();
    let mut c: usize = 0;
    proof {
        assert(before + suffix.deep_view().take(0) =~= before);
    }
    while c < suffix.len()
        invariant
            c <= suffix@.len(),
            row.deep_view() == before + suffix.deep_view().take(c as int),
        decreases suffix@.len() - c,
    {
        let ghost prev = row.deep_view();
        row.push(suffix[c].clone());
        proof {
            assert(row.deep_view() =~= prev.push(suffix@[c as int]@));
            assert(suffix.deep_view().take(c + 1) =~= suffix.deep_view().take(c as int).push(suffix@[c as int]@));
            assert(row.deep_view() =~= before + suffix.deep_view().take(c + 1));
        }
        c += 1;
    }
    proof {
        assert(suffix.deep_view().take(c as int) =~= suffix.deep_view());
    }
}

/// Keeps the rows whose length is `m`, in their order.
fn keep_rows_of_len(rows: &Vec<Vec<String>>, m: usize) -> (r: Vec<Vec<String>>)
    ensures
        forall|w: Walk| #[trigger] r.deep_view().contains(w) <==> rows.deep_view().contains(w) && w.len() == m,
        (forall|i: int, j: int|
            0 <= i < j < rows.deep_view().len() && (#[trigger] rows.deep_view()[i]).len() == m && (
            #[trigger] rows.deep_view()[j]).len() == m ==> rows.deep_view()[i] != rows.deep_view()[j])
            ==> r.deep_view().no_duplicates(),
{
    let mut r: Vec<Vec<String>> = Vec::new();
    let ghost all = rows.deep_view();
    let ghost mut at: Seq<int> = Seq::empty();
    let mut i: usize = 0;
    while i < rows.len()
        invariant
            i <= rows@.len(),
            all == rows.deep_view(),
            at.len() == r.deep_view().len(),
            forall|x: int| 0 <= x < at.len() ==> 0 <= #[trigger] at[x] < i && all[at[x]] == r.deep_view()[x],
            forall|x: int, y: int| 0 <= x < y < at.len() ==> at[x] < at[y],
            forall|x: int| 0 <= x < r.deep_view().len() ==> (#[trigger] r.deep_view()[x]).len() == m,
            forall|x: int| 0 <= x < i && (#[trigger] all[x]).len() == m ==> r.deep_view().contains(all[x]),
        decreases rows@.len() - i,
    {
        if rows[i].len() == m {
            let ghost prev = r.deep_view();
            let copy = rows[i].clone();
            proof {
                assert(copy.deep_view() =~= all[i as int]);
            }
            r.push(copy);
            proof {
                assert(r.deep_view() =~= prev.push(all[i as int]));
                at = at.push(i as int);
                assert forall|x: int| 0 <= x < i + 1 && (#[trigger] all[x]).len() == m implies r.deep_view().contains(
                    all[x],
                ) by {
                    if x < i {
                        let y = choose|y: int| 0 <= y < prev.len() && prev[y] == all[x];
                        assert(r.deep_view()[y] == all[x]);
                    } else {
                        assert(r.deep_view()[prev.len() as int] == all[x]);
                    }
                }
            }
        }
        i += 1;
    }
    proof {
        let rv = r.deep_view();
        assert forall|w: Walk| #[trigger] rv.contains(w) <==> all.contains(w) && w.len() == m by {
            if rv.contains(w) {
                let x = choose|x: int| 0 <= x < rv.len() && rv[x] == w;
                assert(all[at[x]] == w);
            }
            if all.contains(w) && w.len() == m {
                let x = choose|x: int| 0 <= x < all.len() && all[x] == w;
                assert(rv.contains(all[x]));
            }
        }
        if forall|i: int, j: int|
            0 <= i < j < all.len() && (#[trigger] all[i]).len() == m && (#[trigger] all[j]).len() == m ==> all[i]
                != all[j] {
            assert forall|x: int, y: int| 0 <= x < rv.len() && 0 <= y < rv.len() && x != y implies rv[x] != rv[y] by {
                if x < y {
                    assert(at[x] < at[y]);
                    assert(all[at[x]] != all[at[y]]);
                } else {
                    assert(at[y] < at[x]);
                    assert(all[at[y]] != all[at[x]]);
                }
            }
        }
    }
    r
}

/// One row of one value for each value given.
pub open spec fn single_rows(found: Seq<Seq<char>>) -> Seq<Walk> {
    Seq::new(found.len(), |i: int| seq![found[i]])
}

/// One row of two values for each pair given.
pub open spec fn double_rows(found: Seq<(Seq<char>, Seq<char>)>) -> Seq<Walk> {
    Seq::new(found.len(), |i: int| seq![found[i].0, found[i].1])
}

/// One row of three values for each triple given.
pub open spec fn triple_rows(found: Seq<Fact>) -> Seq<Walk> {
    Seq::new(found.len(), |i: int| seq![found[i].0, found[i].1, found[i].2])
}

/// For each triple given, its edge and its far node.
pub open spec fn hop_tails(found: Seq<Fact>) -> Seq<Walk> {
    Seq::new(found.len(), |i: int| seq![found[i].1, found[i].2])
}

/// For each pair given, its edge.
pub open spec fn edge_tails(found: Seq<(Seq<char>, Seq<char>)>) -> Seq<Walk> {
    Seq::new(found.len(), |i: int| seq![found[i].1])
}

/// One row of one value for each value given.
pub(crate) fn rows_of_singles(found: &Vec<String>) -> (r: Vec<Vec<String>>)
    ensures
        r.deep_view() == single_rows(found.deep_view()),
{
    let mut r: Vec<Vec<String>> = Vec::new();
    let mut i: usize = 0;
    while i < found.len()
        invariant
            i <= found@.len(),
            r.deep_view() =~= single_rows(found.deep_view().take(i as int)),
        decreases found@.len() - i,
    {
        let ghost prev = r.deep_view();
        let mut row: Vec<String> = Vec::new();
        row.push(found[i].clone());
        proof {
            assert(row.deep_view() =~= seq![found.deep_view()[i as int]]);
        }
        r.push(row);
        proof {
            assert(r.deep_view() =~= prev.push(seq![found.deep_view()[i as int]]));
        }
        i += 1;
    }
    proof {
        assert(found.deep_view().take(i as int) =~= found.deep_view());
    }
    r
}

/// One row of two values for each pair given.
pub(crate) fn rows_of_doubles(found: &Vec<Double>) -> (r: Vec<Vec<String>>)
    ensures
        r.deep_view() == double_rows(found.deep_view()),
{
    let mut r: Vec<Vec<String>> = Vec::new();
    let mut i: usize = 0;
    while i < found.len()
        invariant
            i <= found@.len(),
            r.deep_view() =~= double_rows(found.deep_view().take(i as int)),
        decreases found@.len() - i,
    {
        let ghost prev = r.deep_view();
        let mut row: Vec<String> = Vec::new();
        row.push(found[i].0.clone());
        row.push(found[i].1.clone());
        proof {
            assert(row.deep_view() =~= seq![found.deep_view()[i as int].0, found.deep_view()[i as int].1]);
        }
        r.push(row);
        proof {
            assert(r.deep_view() =~= prev.push(seq![found.deep_view()[i as int].0, found.deep_view()[i as int].1]));
        }
        i += 1;
    }
    proof {
        assert(found.deep_view().take(i as int) =~= found.deep_view());
    }
    r
}

/// One row of three values for each triple given.
pub(crate) fn rows_of_triples(found: &Vec<Triple>) -> (r: Vec<Vec<String>>)
    ensures
        r.deep_view() == triple_rows(found.deep_view()),
{
    let mut r: Vec<Vec<String>> = Vec::new();
    let mut i: usize = 0;
    while i < found.len()
        invariant
            i <= found@.len(),
            r.deep_view() =~= triple_rows(found.deep_view().take(i as int)),
        decreases found@.len() - i,
    {
        let ghost prev = r.deep_view();
        let ghost f = found.deep_view()[i as int];
        let mut row: Vec<String> = Vec::new();
        row.push(found[i].0.clone());
        row.push(found[i].1.clone());
        row.push(found[i].2.clone());
        proof {
            assert(row.deep_view() =~= seq![f.0, f.1, f.2]);
        }
        r.push(row);
        proof {
            assert(r.deep_view() =~= prev.push(seq![f.0, f.1, f.2]));
        }
        i += 1;
    }
    proof {
        assert(found.deep_view().take(i as int) =~= found.deep_view());
    }
    r
}

/// For each triple given, its edge and its far node.
fn hop_suffixes(found: &Vec<Triple>) -> (r: Vec<Vec<String>>)
    ensures
        r.deep_view() == hop_tails(found.deep_view()),
{
    let mut r: Vec<Vec<String>> = Vec::new();
    let mut i: usize = 0;
    while i < found.len()
        invariant
            i <= found@.len(),
            r.deep_view() =~= hop_tails(found.deep_view().take(i as int)),
        decreases found@.len() - i,
    {
        let ghost prev = r.deep_view();
        let ghost f = found.deep_view()[i as int];
        let mut row: Vec<String> = Vec::new();
        row.push(found[i].1.clone());
        row.push(found[i].2.clone());
        proof {
            assert(row.deep_view() =~= seq![f.1, f.2]);
        }
        r.push(row);
        proof {
            assert(r.deep_view() =~= prev.push(seq![f.1, f.2]));
        }
        i += 1;
    }
    proof {
        assert(found.deep_view().take(i as int) =~= found.deep_view());
    }
    r
}

/// For each pair given, its edge.
fn edge_suffixes(found: &Vec<Double>) -> (r: Vec<Vec<String>>)
    ensures
        r.deep_view() == edge_tails(found.deep_view()),
{
    let mut r: Vec<Vec<String>> = Vec::new();
    let mut i: usize = 0;
    while i < found.len()
        invariant
            i <= found@.len(),
            r.deep_view() =~= edge_tails(found.deep_view().take(i as int)),
        decreases found@.len() - i,
    {
        let ghost prev = r.deep_view();
        let ghost f = found.deep_view()[i as int];
        let mut row: Vec<String> = Vec::new();
        row.push(found[i].1.clone());
        proof {
            assert(row.deep_view() =~= seq![f.1]);
        }
        r.push(row);
        proof {
            assert(r.deep_view() =~= prev.push(seq![f.1]));
        }
        i += 1;
    }
    proof {
        assert(found.deep_view().take(i as int) =~= found.deep_view());
    }
    r
}

/// Rows of one value each are as distinct as the values, and hold what the values hold.
pub proof fn lemma_rows_of_singles(found: Seq<Seq<char>>)
    ensures
        forall|w: Walk| #[trigger] single_rows(found).contains(w) <==> w.len() == 1 && found.contains(w[0]),
        found.no_duplicates() ==> single_rows(found).no_duplicates(),
{
    let rows = single_rows(found);
    assert forall|w: Walk| #[trigger] rows.contains(w) <==> w.len() == 1 && found.contains(w[0]) by {
        if rows.contains(w) {
            let i = choose|i: int| 0 <= i < rows.len() && rows[i] == w;
            assert(found[i] == w[0]);
        }
        if w.len() == 1 && found.contains(w[0]) {
            let i = choose|i: int| 0 <= i < found.len() && found[i] == w[0];
            assert(rows[i] =~= w);
        }
    }
    if found.no_duplicates() {
        assert forall|x: int, y: int| 0 <= x < rows.len() && 0 <= y < rows.len() && x != y implies rows[x]
            != rows[y] by {
            assert(rows[x][0] == found[x]);
            assert(rows[y][0] == found[y]);
        }
    }
}

/// Rows of two values each are as distinct as the pairs, and hold what the pairs hold.
pub proof fn lemma_rows_of_doubles(found: Seq<(Seq<char>, Seq<char>)>)
    ensures
        forall|w: Walk| #[trigger]
            double_rows(found).contains(w) <==> w.len() == 2 && found.contains((w[0], w[1])),
        found.no_duplicates() ==> double_rows(found).no_duplicates(),
{
    let rows = double_rows(found);
    assert forall|w: Walk| #[trigger] rows.contains(w) <==> w.len() == 2 && found.contains((w[0], w[1])) by {
        if rows.contains(w) {
            let i = choose|i: int| 0 <= i < rows.len() && rows[i] == w;
            assert(found[i] == (w[0], w[1]));
        }
        if w.len() == 2 && found.contains((w[0], w[1])) {
            let i = choose|i: int| 0 <= i < found.len() && found[i] == (w[0], w[1]);
            assert(rows[i] =~= w);
        }
    }
    if found.no_duplicates() {
        assert forall|x: int, y: int| 0 <= x < rows.len() && 0 <= y < rows.len() && x != y implies rows[x]
            != rows[y] by {
            assert(rows[x][0] == found[x].0 && rows[x][1] == found[x].1);
            assert(rows[y][0] == found[y].0 && rows[y][1] == found[y].1);
        }
    }
}

/// Rows of three values each are as distinct as the triples, and hold what the triples hold.
pub proof fn lemma_rows_of_triples(found: Seq<Fact>)
    ensures
        forall|w: Walk| #[trigger]
            triple_rows(found).contains(w) <==> w.len() == 3 && found.contains((w[0], w[1], w[2])),
        found.no_duplicates() ==> triple_rows(found).no_duplicates(),
        forall|i: int| 0 <= i < found.len() ==> (#[trigger] triple_rows(found)[i]).len() == 3,
{
    let rows = triple_rows(found);
    assert forall|w: Walk| #[trigger] rows.contains(w) <==> w.len() == 3 && found.contains((w[0], w[1], w[2])) by {
        if rows.contains(w) {
            let i = choose|i: int| 0 <= i < rows.len() && rows[i] == w;
            assert(found[i] == (w[0], w[1], w[2]));
        }
        if w.len() == 3 && found.contains((w[0], w[1], w[2])) {
            let i = choose|i: int| 0 <= i < found.len() && found[i] == (w[0], w[1], w[2]);
            assert(rows[i] =~= w);
        }
    }
    if found.no_duplicates() {
        assert forall|x: int, y: int| 0 <= x < rows.len() && 0 <= y < rows.len() && x != y implies rows[x]
            != rows[y] by {
            assert(rows[x][0] == found[x].0 && rows[x][1] == found[x].1 && rows[x][2] == found[x].2);
            assert(rows[y][0] == found[y].0 && rows[y][1] == found[y].1 && rows[y][2] == found[y].2);
        }
    }
}

/// A row of n + 2 values is a walk just when its first n values are one and
/// its last hop is a triple that the pattern admits.
proof fn lemma_hop_step(g: Graph, q: Chain, rows: Seq<Walk>, n: int, w: Walk)
    requires
        3 <= n,
        n % 2 == 1,
        n + 2 <= q.len(),
        forall|v: Walk| #[trigger] rows.contains(v) <==> g.walk_upto(q, v, n),
    ensures
        g.grown(rows, n, q[n], q[n + 1], true, w) <==> g.walk_upto(q, w, n + 2),
{
    let v = w.take(n);
    let k = (n - 1) / 2;
    if g.grown(rows, n, q[n], q[n + 1], true, w) {
        assert(g.walk_upto(q, v, n));
        assert(w.skip(n)[0] == w[n] && w.skip(n)[1] == w[n + 1]);
        assert forall|i: int| 0 <= i < n + 2 implies position_matches(#[trigger] q[i], w[i]) by {
            if i < n {
                assert(position_matches(q[i], v[i]));
            }
        }
        assert forall|i: int| 0 <= i && 2 * i + 2 < n + 2 implies g@.contains(#[trigger] hop(w, i)) by {
            if 2 * i + 2 < n {
                assert(hop(v, i) == hop(w, i));
            } else {
                assert(i == k);
            }
        }
    }
    if g.walk_upto(q, w, n + 2) {
        assert forall|i: int| 0 <= i < n implies position_matches(#[trigger] q[i], v[i]) by {
            assert(position_matches(q[i], w[i]));
        }
        assert forall|i: int| 0 <= i && 2 * i + 2 < n implies g@.contains(#[trigger] hop(v, i)) by {
            assert(hop(v, i) == hop(w, i));
        }
        assert(g.walk_upto(q, v, n));
        assert(g@.contains(hop(w, k)));
        assert(position_matches(q[n], w[n]));
        assert(position_matches(q[n + 1], w[n + 1]));
        assert(w.skip(n)[0] == w[n] && w.skip(n)[1] == w[n + 1]);
    }
}

/// A row that ends on an edge is a walk just when the values before the edge
/// are one and their last node has that edge, as the pattern admits it.
proof fn lemma_edge_step(g: Graph, q: Chain, rows: Seq<Walk>, n: int, w: Walk)
    requires
        3 <= n,
        n % 2 == 1,
        n + 1 == q.len(),
        forall|v: Walk| #[trigger] rows.contains(v) <==> g.walk_upto(q, v, n),
    ensures
        g.grown(rows, n, q[n], None, false, w) <==> g.is_walk(q, w),
{
    let v = w.take(n);
    if g.grown(rows, n, q[n], None, false, w) {
        assert(g.walk_upto(q, v, n));
        assert(w.skip(n)[0] == w[n]);
        assert forall|i: int| 0 <= i < n + 1 implies position_matches(#[trigger] q[i], w[i]) by {
            if i < n {
                assert(position_matches(q[i], v[i]));
            }
        }
        assert forall|i: int| 0 <= i && 2 * i + 2 < n + 1 implies g@.contains(#[trigger] hop(w, i)) by {
            assert(hop(v, i) == hop(w, i));
        }
    }
    if g.is_walk(q, w) {
        assert forall|i: int| 0 <= i < n implies position_matches(#[trigger] q[i], v[i]) by {
            assert(position_matches(q[i], w[i]));
        }
        assert forall|i: int| 0 <= i && 2 * i + 2 < n implies g@.contains(#[trigger] hop(v, i)) by {
            assert(hop(v, i) == hop(w, i));
        }
        assert(g.walk_upto(q, v, n));
        assert(position_matches(q[n], w[n]));
        assert(w.skip(n)[0] == w[n]);
    }
}

/// What one look at the row `r` does to the frontier: the rows that have
/// grown are those that had grown before and those that grow from the row `r`,
/// and no grown row occurs twice.
proof fn lemma_fan_out_step(
    g: Graph,
    before: Seq<Walk>,
    cur: Seq<Walk>,
    next: Seq<Walk>,
    r: int,
    n: int,
    mid: Option<Seq<char>>,
    tail: Option<Seq<char>>,
    full: bool,
    found: Seq<Walk>,
)
    requires
        n >= 1,
        before.no_duplicates(),
        forall|i: int| 0 <= i < before.len() ==> (#[trigger] before[i]).len() == n,
        0 <= r < before.len() <= cur.len(),
        forall|i: int| r <= i < before.len() ==> #[trigger] cur[i] == before[i],
        forall|i: int|
            0 <= i < cur.len() ==> (#[trigger] cur[i]).len() == n || g.grown(
                before.take(r),
                n,
                mid,
                tail,
                full,
                cur[i],
            ),
        forall|w: Walk| #[trigger] g.grown(before.take(r), n, mid, tail, full, w) ==> cur.contains(w),
        forall|i: int, j: int|
            0 <= i < j < cur.len() && (#[trigger] cur[i]).len() != n && (#[trigger] cur[j]).len() != n ==> cur[i]
                != cur[j],
        found.no_duplicates(),
        forall|x: Walk| #[trigger] found.contains(x) <==> g.admits(before[r][n - 1], mid, tail, full, x),
        next == if found.len() > 0 {
            fanned(cur, r, found)
        } else {
            cur
        },
    ensures
        before.len() <= next.len(),
        forall|i: int| r + 1 <= i < before.len() ==> #[trigger] next[i] == before[i],
        forall|i: int|
            0 <= i < next.len() ==> (#[trigger] next[i]).len() == n || g.grown(
                before.take(r + 1),
                n,
                mid,
                tail,
                full,
                next[i],
            ),
        forall|w: Walk| #[trigger] g.grown(before.take(r + 1), n, mid, tail, full, w) ==> next.contains(w),
        forall|i: int, j: int|
            0 <= i < j < next.len() && (#[trigger] next[i]).len() != n && (#[trigger] next[j]).len() != n
                ==> next[i] != next[j],
{
    let b = before[r];
    let early = before.take(r);
    let late = before.take(r + 1);
    assert(late[r] == b);
    assert forall|v: Walk| early.contains(v) implies late.contains(v) && v != b by {
        let i = choose|i: int| 0 <= i < early.len() && early[i] == v;
        assert(late[i] == v);
        assert(before[i] != before[r]);
    }
    assert forall|v: Walk| late.contains(v) implies early.contains(v) || v == b by {
        let i = choose|i: int| 0 <= i < late.len() && late[i] == v;
        if i < r {
            assert(early[i] == v);
        }
    }
    // each new row: the row at r with one of the suffixes found
    assert forall|c: int| 0 <= c < found.len() implies g.grown(late, n, mid, tail, full, #[trigger] (b + found[c])) by {
        let w = b + found[c];
        assert(found.contains(found[c]));
        assert(w.take(n) =~= b);
        assert(w.skip(n) =~= found[c]);
        assert(w[n - 1] == b[n - 1]);
        assert(late.contains(b));
    }
    assert forall|i: int| 0 <= i < next.len() implies (#[trigger] next[i]).len() == n || g.grown(
        late,
        n,
        mid,
        tail,
        full,
        next[i],
    ) by {
        if found.len() > 0 {
            if i == r {
                assert(next[i] == b + found[0]);
            } else if i < cur.len() {
                assert(next[i] == cur[i]);
            } else {
                assert(next[i] == b + found[i - cur.len() + 1]);
            }
        }
        if i < cur.len() && (found.len() == 0 || i != r) {
            assert(next[i] == cur[i]);
            if cur[i].len() != n {
                assert(g.grown(early, n, mid, tail, full, cur[i]));
                assert(late.contains(cur[i].take(n)));
            }
        }
    }
    assert forall|w: Walk| #[trigger] g.grown(late, n, mid, tail, full, w) implies next.contains(w) by {
        if early.contains(w.take(n)) {
            assert(g.grown(early, n, mid, tail, full, w));
            let i = choose|i: int| 0 <= i < cur.len() && cur[i] == w;
            assert(cur[r].len() == n);
            assert(i != r);
            assert(next[i] == w);
        } else {
            assert(w.take(n) == b);
            assert(found.contains(w.skip(n)));
            let c = choose|c: int| 0 <= c < found.len() && found[c] == w.skip(n);
            assert(w =~= b + found[c]);
            if c == 0 {
                assert(next[r] == w);
            } else {
                assert(next[cur.len() + c - 1] == w);
            }
        }
    }
    assert forall|i: int, j: int|
        0 <= i < j < next.len() && (#[trigger] next[i]).len() != n && (#[trigger] next[j]).len() != n implies next[i]
        != next[j] by {
        if found.len() == 0 {
            assert(next[i] == cur[i] && next[j] == cur[j]);
        } else {
            let fresh_i = i == r || i >= cur.len();
            let fresh_j = j == r || j >= cur.len();
            let ci = if i == r {
                0
            } else {
                i - cur.len() + 1
            };
            let cj = if j == r {
                0
            } else {
                j - cur.len() + 1
            };
            if fresh_i && fresh_j {
                assert(next[i] == b + found[ci]);
                assert(next[j] == b + found[cj]);
                assert(found[ci] != found[cj]);
                assert((b + found[ci]).skip(n) =~= found[ci]);
                assert((b + found[cj]).skip(n) =~= found[cj]);
            } else if fresh_i {
                assert(next[i] == b + found[ci]);
                assert(next[j] == cur[j]);
                assert(g.grown(early, n, mid, tail, full, cur[j]));
                assert((b + found[ci]).take(n) =~= b);
            } else if fresh_j {
                assert(next[j] == b + found[cj]);
                assert(next[i] == cur[i]);
                assert(g.grown(early, n, mid, tail, full, cur[i]));
                assert((b + found[cj]).take(n) =~= b);
            } else {
                assert(next[i] == cur[i] && next[j] == cur[j]);
            }
        }
    }
}

} // verus!
