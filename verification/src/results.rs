//! What a structured query gives back: per matched row the values bound, with
//! the position of each named variable, and the rows of one query together.

use vstd::prelude::*;
use crate::queries::{Query, QueryUnit, QueryView, UnitView};
use crate::triple::remaining_first;

verus! {

/// One entry of a row: a value, or the mark of a position that was left out.
#[derive(Clone, Debug, PartialEq)]
pub enum ResultUnit {
    Val(String),
    Nil,
}

impl View for ResultUnit {
    type V = Option<Seq<char>>;

    /// The value, or nothing for the mark.
    open spec fn view(&self) -> Option<Seq<char>> {
        match self {
            ResultUnit::Val(v) => Some(v@),
            ResultUnit::Nil => None,
        }
    }
}

impl DeepView for ResultUnit {
    type V = Option<Seq<char>>;

    open spec fn deep_view(&self) -> Option<Seq<char>> {
        self@
    }
}

impl ResultUnit {
    /// The entry that a text stands for: the mark for the empty text, else the text as a value.
    pub fn from(s: &str) -> (r: Self)
        ensures
            r@ == (if s@.len() == 0 {
                None
            } else {
                Some(s@)
            }),
    {
        if s.unicode_len() == 0 {
            ResultUnit::Nil
        } else {
            ResultUnit::Val(s.to_owned())
        }
    }

    /// An entry equal to this one.
    pub fn duplicate(&self) -> (r: Self)
        ensures
            r@ == self@,
    {
        match self {
            ResultUnit::Val(v) => ResultUnit::Val(v.clone()),
            ResultUnit::Nil => ResultUnit::Nil,
        }
    }
}

/// One matched row: its entries in order, and for each variable name the
/// position of the entry that it names. Where a name was given twice, the
/// later position counts.
#[derive(Clone, Debug, PartialEq)]
pub struct Result {
    pub values: Vec<ResultUnit>,
    pub var_map: Vec<(String, usize)>,
}

/// A row as contracts see it.
pub struct ResultView {
    /// The entries in order: a value, or nothing for a position left out.
    pub values: Seq<Option<Seq<char>>>,
    /// The position that each variable name stands for.
    pub vars: Map<Seq<char>, usize>,
}

/// The positions that a list of names and positions gives; a later entry for a name replaces an earlier one.
pub open spec fn vars_of(entries: Seq<(String, usize)>) -> Map<Seq<char>, usize>
    decreases entries.len(),
{
    if entries.len() == 0 {
        Map::empty()
    } else {
        vars_of(entries.drop_last()).insert(entries.last().0@, entries.last().1)
    }
}

impl ResultView {
    /// The row without entries.
    pub open spec fn empty() -> ResultView {
        ResultView { values: Seq::empty(), vars: Map::empty() }
    }

    /// The row with one more entry, which no name stands for.
    pub open spec fn push_value(self, v: Option<Seq<char>>) -> ResultView {
        ResultView { values: self.values.push(v), vars: self.vars }
    }

    /// The row with one more value, which `name` stands for from now on.
    pub open spec fn push_var(self, name: Seq<char>, v: Seq<char>) -> ResultView {
        ResultView { values: self.values.push(Some(v)), vars: self.vars.insert(name, self.values.len() as usize) }
    }

    /// The row with the entry that a query unit takes from the value matched
    /// at its position: a value unit records itself, a variable the matched
    /// value under its name, the unnamed variable the matched value, and a
    /// unit that is left out records the mark.
    pub open spec fn bind(self, unit: UnitView, matched: Seq<char>) -> ResultView {
        match unit {
            UnitView::Val(v) => self.push_value(Some(v)),
            UnitView::Var(name) => self.push_var(name, matched),
            UnitView::Anon => self.push_value(Some(matched)),
            UnitView::Ignore => self.push_value(None),
        }
    }

    /// The value that the name stands for: nothing where the name is not
    /// known, or where it stands for no value.
    pub open spec fn lookup(self, name: Seq<char>) -> Option<Seq<char>> {
        if self.vars.contains_key(name) && self.vars[name] < self.values.len() {
            self.values[self.vars[name] as int]
        } else {
            None
        }
    }

    /// The entry at a position, or nothing where there is none.
    pub open spec fn at(self, pos: int) -> Option<Seq<char>> {
        if 0 <= pos < self.values.len() {
            self.values[pos]
        } else {
            None
        }
    }
}

impl View for Result {
    type V = ResultView;

    open spec fn view(&self) -> ResultView {
        ResultView { values: self.values.deep_view(), vars: vars_of(self.var_map@) }
    }
}

impl DeepView for Result {
    type V = ResultView;

    open spec fn deep_view(&self) -> ResultView {
        self@
    }
}

impl Result {
    /// A row without entries.
    pub fn new() -> (r: Self)
        ensures
            r@ == ResultView::empty(),
    {
        let r = Result { values: Vec::new(), var_map: Vec::new() };
        proof {
            assert(r.values.deep_view() =~= Seq::<Option<Seq<char>>>::empty());
        }
        r
    }

    /// Appends an entry that no name stands for.
    pub fn add_anon(&mut self, val: ResultUnit)
        ensures
            final(self)@ == old(self)@.push_value(val@),
    {
        self.values.push(val);
        proof {
            assert(self.values.deep_view() =~= old(self).values.deep_view().push(val@));
        }
    }

    /// Appends an entry that no name stands for.
    pub fn add_val(&mut self, val: ResultUnit)
        ensures
            final(self)@ == old(self)@.push_value(val@),
    {
        self.add_anon(val);
    }

    /// Appends a value and lets `var` stand for it.
    pub fn add_var(&mut self, var: String, val: String)
        ensures
            final(self)@ == old(self)@.push_var(var@, val@),
    {
        let ghost name = var@;
        let ghost v = val@;
        self.values.push(ResultUnit::Val(val));
        let pos = self.values.len() - 1;
        self.var_map.push((var, pos));
        proof {
            assert(self.values.deep_view() =~= old(self).values.deep_view().push(Some(v)));
            assert(self.var_map@.drop_last() =~= old(self).var_map@);
            assert(self.var_map@.last().0@ == name);
        }
    }

    /// Appends the entry that a query unit takes from the value matched at its position.
    pub fn bind(&mut self, unit: &QueryUnit, matched: String)
        ensures
            final(self)@ == old(self)@.bind(unit@, matched@),
    {
        match unit {
            QueryUnit::Val(v) => self.add_anon(ResultUnit::Val(v.clone())),
            QueryUnit::Var(name) => self.add_var(name.clone(), matched),
            QueryUnit::Anon => self.add_anon(ResultUnit::Val(matched)),
            QueryUnit::Ignore => self.add_anon(ResultUnit::Nil),
        }
    }

    /// The value that the name stands for, or nothing where the name is not
    /// known or stands for no value.
    pub fn get_var(&self, var: &str) -> (r: Option<String>)
        ensures
            r.deep_view() == self@.lookup(var@),
    {
        let name = var.to_owned();
        let mut i: usize = self.var_map.len();
        while i > 0
            invariant
                i <= self.var_map@.len(),
                name@ == var@,
                forall|j: int| i <= j < self.var_map@.len() ==> (#[trigger] self.var_map@[j]).0@ != name@,
            decreases i,
        {
            i -= 1;
            if self.var_map[i].0 == name {
                let pos = self.var_map[i].1;
                proof {
                    lemma_vars_of(self.var_map@, name@, i as int);
                }
                if pos < self.values.len() {
                    return match &self.values[pos] {
                        ResultUnit::Val(v) => Some(v.clone()),
                        ResultUnit::Nil => None,
                    };
                }
                return None;
            }
        }
        proof {
            lemma_vars_of_unknown(self.var_map@, name@);
        }
        None
    }

    /// The value at a position, or nothing where the row has no value there.
    pub fn get_val(&self, pos: usize) -> (r: Option<String>)
        ensures
            r.deep_view() == self@.at(pos as int),
    {
        if pos < self.values.len() {
            return match &self.values[pos] {
                ResultUnit::Val(v) => Some(v.clone()),
                ResultUnit::Nil => None,
            };
        }
        None
    }

    /// A row equal to this one.
    pub fn duplicate(&self) -> (r: Self)
        ensures
            r@ == self@,
    {
        let mut values: Vec<ResultUnit> = Vec::new();
        let mut i: usize = 0;
        while i < self.values.len()
            invariant
                i <= self.values@.len(),
                values.deep_view() =~= self.values.deep_view().take(i as int),
            decreases self.values@.len() - i,
        {
            let ghost prev = values.deep_view();
            values.push(self.values[i].duplicate());
            proof {
                assert(values.deep_view() =~= prev.push(self.values@[i as int]@));
            }
            i += 1;
        }
        let mut var_map: Vec<(String, usize)> = Vec::new();
        let mut j: usize = 0;
        while j < self.var_map.len()
            invariant
                j <= self.var_map@.len(),
                var_map@.len() == j,
                vars_of(var_map@) == vars_of(self.var_map@.take(j as int)),
            decreases self.var_map@.len() - j,
        {
            let ghost prev = var_map@;
            var_map.push((self.var_map[j].0.clone(), self.var_map[j].1));
            proof {
                assert(var_map@.drop_last() =~= prev);
                assert(self.var_map@.take(j + 1).drop_last() =~= self.var_map@.take(j as int));
            }
            j += 1;
        }
        proof {
            assert(self.values.deep_view().take(i as int) =~= self.values.deep_view());
            assert(self.var_map@.take(j as int) =~= self.var_map@);
        }
        Result { values, var_map }
    }

    /// A cursor over the entries of the row, from the first.
    pub fn iter(&self) -> (r: ResultRefIterator<'_>)
        ensures
            r.store == self,
            r.curr_pos == 0,
    {
        ResultRefIterator { store: self, curr_pos: 0 }
    }

    /// A cursor that owns the row, from its first entry.
    pub fn into_iter(self) -> (r: ResultIterator)
        ensures
            r.store == self,
            r.curr_pos == 0,
    {
        ResultIterator { store: self, curr_pos: 0 }
    }
}

/// A name stands for the position of its last entry.
proof fn lemma_vars_of(entries: Seq<(String, usize)>, name: Seq<char>, i: int)
    requires
        0 <= i < entries.len(),
        entries[i].0@ == name,
        forall|j: int| i < j < entries.len() ==> (#[trigger] entries[j]).0@ != name,
    ensures
        vars_of(entries).contains_key(name),
        vars_of(entries)[name] == entries[i].1,
    decreases entries.len(),
{
    if i < entries.len() - 1 {
        let front = entries.drop_last();
        assert(entries[entries.len() - 1].0@ != name);
        assert forall|j: int| i < j < front.len() implies (#[trigger] front[j]).0@ != name by {
            assert(front[j] == entries[j]);
        }
        lemma_vars_of(front, name, i);
    }
}

/// A name that no entry has stands for no position.
proof fn lemma_vars_of_unknown(entries: Seq<(String, usize)>, name: Seq<char>)
    requires
        forall|j: int| 0 <= j < entries.len() ==> (#[trigger] entries[j]).0@ != name,
    ensures
        !vars_of(entries).contains_key(name),
    decreases entries.len(),
{
    if entries.len() > 0 {
        let front = entries.drop_last();
        assert(entries[entries.len() - 1].0@ != name);
        assert forall|j: int| 0 <= j < front.len() implies (#[trigger] front[j]).0@ != name by {
            assert(front[j] == entries[j]);
        }
        lemma_vars_of_unknown(front, name);
    }
}

/// A cursor that owns a row and hands out its entries in order.
pub struct ResultIterator {
    pub store: Result,
    pub curr_pos: usize,
}

impl ResultIterator {
    /// The next entry, or nothing when all have been handed out.
    pub fn next(&mut self) -> (r: Option<ResultUnit>)
        ensures
            final(self).store == old(self).store,
            r.deep_view() == remaining_first(old(self).store@.values, old(self).curr_pos as int),
            final(self).curr_pos == (if old(self).curr_pos < old(self).store@.values.len() {
                old(self).curr_pos + 1
            } else {
                old(self).curr_pos as int
            }),
    {
        if self.curr_pos >= self.store.values.len() {
            return None;
        }
        let r = self.store.values[self.curr_pos].duplicate();
        self.curr_pos += 1;
        Some(r)
    }
}

/// A cursor over a row that hands out its entries in order.
pub struct ResultRefIterator<'a> {
    pub store: &'a Result,
    pub curr_pos: usize,
}

impl<'a> ResultRefIterator<'a> {
    /// The next entry, or nothing when all have been handed out.
    pub fn next(&mut self) -> (r: Option<ResultUnit>)
        ensures
            final(self).store == old(self).store,
            r.deep_view() == remaining_first(old(self).store@.values, old(self).curr_pos as int),
            final(self).curr_pos == (if old(self).curr_pos < old(self).store@.values.len() {
                old(self).curr_pos + 1
            } else {
                old(self).curr_pos as int
            }),
    {
        if self.curr_pos >= self.store.values.len() {
            return None;
        }
        let r = self.store.values[self.curr_pos].duplicate();
        self.curr_pos += 1;
        Some(r)
    }
}

/// The rows that one query gave, in order, with the query.
#[derive(Clone, Debug, PartialEq)]
pub struct ResultCollection {
    pub results: Vec<Result>,
    pub query: Query,
}

impl ResultCollection {
    /// The rows as contracts see them.
    pub open spec fn rows(&self) -> Seq<ResultView> {
        self.results.deep_view()
    }

    /// No rows, for the query that asks nothing.
    pub fn new() -> (r: Self)
        ensures
            r.rows() == Seq::<ResultView>::empty(),
            r.query@ == QueryView::Null,
    {
        let r = ResultCollection { results: Vec::new(), query: Query::Null };
        proof {
            assert(r.rows() =~= Seq::<ResultView>::empty());
        }
        r
    }

    /// The given rows for the given query.
    pub fn from(q: Query, rs: Vec<Result>) -> (r: Self)
        ensures
            r.results == rs,
            r.query == q,
    {
        ResultCollection { results: rs, query: q }
    }

    /// A cursor over the rows, from the first.
    pub fn iter(&self) -> (r: ResultCollectionRefIterator<'_>)
        ensures
            r.results == self,
            r.curr_pos == 0,
    {
        ResultCollectionRefIterator { results: self, curr_pos: 0 }
    }

    /// A cursor that owns the rows, from the first.
    pub fn into_iter(self) -> (r: ResultCollectionIterator)
        ensures
            r.results == self,
            r.curr_pos == 0,
    {
        ResultCollectionIterator { results: self, curr_pos: 0 }
    }
}

/// A cursor that owns the rows of a query and hands them out in order.
pub struct ResultCollectionIterator {
    pub results: ResultCollection,
    pub curr_pos: usize,
}

impl ResultCollectionIterator {
    /// The next row, or nothing when all have been handed out.
    pub fn next(&mut self) -> (r: Option<Result>)
        ensures
            final(self).results == old(self).results,
            r.deep_view() == remaining_first(old(self).results.rows(), old(self).curr_pos as int),
            final(self).curr_pos == (if old(self).curr_pos < old(self).results.rows().len() {
                old(self).curr_pos + 1
            } else {
                old(self).curr_pos as int
            }),
    {
        if self.curr_pos >= self.results.results.len() {
            return None;
        }
        let r = self.results.results[self.curr_pos].duplicate();
        self.curr_pos += 1;
        Some(r)
    }
}

/// A cursor over the rows of a query that hands them out in order.
pub struct ResultCollectionRefIterator<'a> {
    pub results: &'a ResultCollection,
    pub curr_pos: usize,
}

impl<'a> ResultCollectionRefIterator<'a> {
    /// The next row, or nothing when all have been handed out.
    pub fn next(&mut self) -> (r: Option<Result>)
        ensures
            final(self).results == old(self).results,
            r.deep_view() == remaining_first(old(self).results.rows(), old(self).curr_pos as int),
            final(self).curr_pos == (if old(self).curr_pos < old(self).results.rows().len() {
                old(self).curr_pos + 1
            } else {
                old(self).curr_pos as int
            }),
    {
        if self.curr_pos >= self.results.results.len() {
            return None;
        }
        let r = self.results.results[self.curr_pos].duplicate();
        self.curr_pos += 1;
        Some(r)
    }
}

} // verus!
