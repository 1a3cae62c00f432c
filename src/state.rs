use vstd::prelude::*;
use vstd::multiset::Multiset;
use crate::value::{DataType, Value, values_of, project, key_of, same_values};
use crate::rows::{Rows, rows_multiset, rows_bytes, copy_vec, bytes_of_rows};
use crate::result::{RecordResult, LookupResult};

verus! {

broadcast use {vstd::multiset::group_multiset_axioms, vstd::seq_lib::group_to_multiset_ensures};

/// Identifies a replay path into a partial index.
#[derive(Clone, Copy, Debug, PartialEq, Eq, Structural)]
pub struct Tag(pub u32);

/// A signed record of a batch: a row to insert, or one copy of a row to retract.
pub enum Record {
    Positive(Vec<DataType>),
    Negative(Vec<DataType>),
}

impl Record {
    pub open spec fn row(&self) -> Seq<Value> {
        match self {
            Record::Positive(r) => values_of(r@),
            Record::Negative(r) => values_of(r@),
        }
    }

    pub open spec fn is_positive(&self) -> bool {
        self is Positive
    }

    /// The record's row.
    pub fn data(&self) -> (r: &Vec<DataType>)
        ensures
            values_of(r@) == self.row(),
    {
        match self {
            Record::Positive(r) => r,
            Record::Negative(r) => r,
        }
    }
}

/// Whether `ks` holds the tuple of values `k`.
pub open spec fn holds_key(ks: Seq<Vec<DataType>>, k: Seq<Value>) -> bool {
    exists|i: int| 0 <= i < ks.len() && values_of(ks[i]@) == k
}

/// The position in `ks` of a tuple with the values of `key`, if any.
fn find_key(ks: &Vec<Vec<DataType>>, key: &[DataType]) -> (r: Option<usize>)
    ensures
        match r {
            Some(i) => i < ks@.len() && values_of(ks@[i as int]@) == values_of(key@),
            None => !holds_key(ks@, values_of(key@)),
        },
{
    let mut i: usize = 0;
    while i < ks.len()
        invariant
            i <= ks@.len(),
            forall|j: int| 0 <= j < i ==> values_of(ks@[j]@) != values_of(key@),
        decreases ks@.len() - i,
    {
        if same_values(ks[i].as_slice(), key) {
            return Some(i);
        }
        i = i + 1;
    }
    None
}

/// Whether two column lists are equal.
fn same_columns(a: &[usize], b: &[usize]) -> (r: bool)
    ensures
        r == (a@ == b@),
{
    if a.len() != b.len() {
        return false;
    }
    let mut i: usize = 0;
    while i < a.len()
        invariant
            a@.len() == b@.len(),
            i <= a@.len(),
            forall|j: int| 0 <= j < i ==> a@[j] == b@[j],
        decreases a@.len() - i,
    {
        if a[i] != b[i] {
            return false;
        }
        i = i + 1;
    }
    proof {
        assert(a@ =~= b@);
    }
    true
}

/// A copy of a column list.
fn copy_columns(a: &[usize]) -> (r: Vec<usize>)
    ensures
        r@ == a@,
{
    let mut r: Vec<usize> = Vec::new();
    let mut i: usize = 0;
    while i < a.len()
        invariant
            i <= a@.len(),
            r@ == a@.take(i as int),
        decreases a@.len() - i,
    {
        r.push(a[i]);
        proof {
            assert(a@.take(i as int + 1) =~= a@.take(i as int).push(a@[i as int]));
        }
        i = i + 1;
    }
    proof {
        assert(a@.take(a@.len() as int) =~= a@);
    }
    r
}

/// Whether `ts` holds `t`.
fn has_tag_in(ts: &Vec<Tag>, t: Tag) -> (r: bool)
    ensures
        r == ts@.contains(t),
{
    let mut i: usize = 0;
    while i < ts.len()
        invariant
            i <= ts@.len(),
            forall|j: int| 0 <= j < i ==> ts@[j] != t,
        decreases ts@.len() - i,
    {
        if ts[i] == t {
            proof {
                assert(ts@[i as int] == t);
            }
            return true;
        }
        i = i + 1;
    }
    false
}

/// An index: the rows of the state organised by their key over `columns`.
/// A partial index (one with replay tags) holds rows only for filled keys;
/// every other key is a hole.
pub struct Index {
    columns: Vec<usize>,
    tags: Option<Vec<Tag>>,
    rows: Rows,
    filled: Vec<Vec<DataType>>,
}

impl Index {
    pub closed spec fn cols(&self) -> Seq<usize> {
        self.columns@
    }

    pub closed spec fn partial(&self) -> bool {
        self.tags is Some
    }

    pub closed spec fn has_tag(&self, t: Tag) -> bool {
        match self.tags {
            Some(ts) => ts@.contains(t),
            None => false,
        }
    }

    /// The rows held, copies counted.
    pub closed spec fn contents(&self) -> Multiset<Seq<Value>> {
        self.rows@
    }

    pub closed spec fn is_filled(&self, k: Seq<Value>) -> bool {
        holds_key(self.filled@, k)
    }

    /// A key that the index has no data for yet.
    pub open spec fn is_hole(&self, k: Seq<Value>) -> bool {
        self.partial() && !self.is_filled(k)
    }

    /// The key of a row in this index.
    pub open spec fn key(&self, r: Seq<Value>) -> Seq<Value> {
        project(r, self.cols())
    }

    pub closed spec fn wf(&self) -> bool {
        &&& self.rows.wf()
        &&& forall|r: Seq<Value>| #[trigger] self.rows@.count(r) > 0 ==> !self.is_hole(self.key(r))
    }

    /// What applying `recs` in order does to the rows `m` of this index: a
    /// record whose key is a hole is skipped; a retraction removes one copy.
    pub open spec fn after(&self, m: Multiset<Seq<Value>>, recs: Seq<Record>) -> Multiset<Seq<Value>>
        decreases recs.len(),
    {
        if recs.len() == 0 {
            m
        } else {
            let m2 = self.after(m, recs.drop_last());
            let rec = recs.last();
            if self.is_hole(self.key(rec.row())) {
                m2
            } else if rec.is_positive() {
                m2.insert(rec.row())
            } else {
                m2.remove(rec.row())
            }
        }
    }

    /// Whether the index holds some row under key `k`.
    pub open spec fn holds_rows_under(&self, k: Seq<Value>) -> bool {
        exists|x: Seq<Value>| self.contents().count(x) > 0 && self.key(x) == k
    }

    /// Same columns, same partiality, same tags.
    pub open spec fn same_shape(&self, o: Index) -> bool {
        &&& self.cols() == o.cols()
        &&& self.partial() == o.partial()
        &&& forall|t: Tag| #[trigger] self.has_tag(t) == o.has_tag(t)
    }

    /// Same shape and the same filled keys.
    pub open spec fn same_marks(&self, o: Index) -> bool {
        &&& self.same_shape(o)
        &&& forall|k: Seq<Value>| #[trigger] self.is_filled(k) == o.is_filled(k)
    }

    /// Applies one record to this index, unless its key is a hole.
    fn apply(&mut self, rec: &Record)
        requires
            old(self).wf(),
            old(self).contents().len() < usize::MAX,
        ensures
            final(self).wf(),
            final(self).columns@ == old(self).columns@,
            final(self).tags == old(self).tags,
            final(self).filled@ == old(self).filled@,
            final(self).contents() == if old(self).is_hole(old(self).key(rec.row())) {
                old(self).contents()
            } else if rec.is_positive() {
                old(self).contents().insert(rec.row())
            } else {
                old(self).contents().remove(rec.row())
            },
            final(self).contents().len() <= old(self).contents().len() + 1,
    {
        let k = key_of(rec.data().as_slice(), self.columns.as_slice());
        if self.hole(k.as_slice()) {
            return;
        }
        match rec {
            Record::Positive(r) => {
                self.rows.insert(copy_vec(r));
            },
            Record::Negative(r) => {
                self.rows.remove(r.as_slice());
            },
        }
        proof {
            assert forall|x: Seq<Value>| #[trigger] self.rows@.count(x) > 0 implies !self.is_hole(self.key(x)) by {
                if x != rec.row() {
                    assert(old(self).rows@.count(x) > 0);
                }
            }
        }
    }

    /// Records `key` as filled.
    fn fill(&mut self, key: Vec<DataType>)
        requires
            old(self).wf(),
        ensures
            final(self).wf(),
            final(self).columns@ == old(self).columns@,
            final(self).tags == old(self).tags,
            final(self).contents() == old(self).contents(),
            forall|k: Seq<Value>| #[trigger] final(self).is_filled(k) == (old(self).is_filled(k) || k == values_of(key@)),
    {
        if find_key(&self.filled, key.as_slice()).is_some() {
            return;
        }
        let ghost n = self.filled@.len();
        let ghost kv = values_of(key@);
        self.filled.push(key);
        proof {
            assert(values_of(self.filled@[n as int]@) == kv);
            assert forall|k: Seq<Value>| #[trigger] self.is_filled(k) == (old(self).is_filled(k) || k == kv) by {
                if old(self).is_filled(k) {
                    let j = choose|j: int| 0 <= j < old(self).filled@.len() && values_of(old(self).filled@[j]@) == k;
                    assert(values_of(self.filled@[j]@) == k);
                }
                if self.is_filled(k) && k != kv {
                    let j = choose|j: int| 0 <= j < self.filled@.len() && values_of(self.filled@[j]@) == k;
                    assert(j < n);
                }
            }
            assert forall|x: Seq<Value>| #[trigger] self.rows@.count(x) > 0 implies !self.is_hole(self.key(x)) by {
                assert(old(self).rows@.count(x) > 0);
            }
        }
    }

    /// Makes `key` a hole again: drops its rows and its filled mark. Returns
    /// the rows dropped.
    fn unfill(&mut self, key: &[DataType]) -> (removed: Vec<Vec<DataType>>)
        requires
            old(self).wf(),
        ensures
            final(self).wf(),
            final(self).columns@ == old(self).columns@,
            final(self).tags == old(self).tags,
            forall|k: Seq<Value>| #[trigger] final(self).is_filled(k) == (old(self).is_filled(k) && k != values_of(key@)),
            forall|r: Seq<Value>| #[trigger] final(self).contents().count(r) == if old(self).key(r) == values_of(key@) {
                0
            } else {
                old(self).contents().count(r)
            },
            forall|r: Seq<Value>| #[trigger] rows_multiset(removed@).count(r) == if old(self).key(r) == values_of(key@) {
                old(self).contents().count(r)
            } else {
                0
            },
    {
        let removed = self.rows.remove_key(self.columns.as_slice(), key);
        let ghost kv = values_of(key@);
        let mut kept: Vec<Vec<DataType>> = Vec::new();
        let mut i: usize = 0;
        while i < self.filled.len()
            invariant
                i <= self.filled@.len(),
                self.filled@ == old(self).filled@,
                kv == values_of(key@),
                forall|k: Seq<Value>| #[trigger] holds_key(kept@, k) == (holds_key(self.filled@.take(i as int), k) && k != kv),
            decreases self.filled@.len() - i,
        {
            let ghost before = kept@;
            if !same_values(self.filled[i].as_slice(), key) {
                kept.push(copy_vec(&self.filled[i]));
            }
            proof {
                let fk = values_of(self.filled@[i as int]@);
                let t1 = self.filled@.take(i as int + 1);
                assert(t1 =~= self.filled@.take(i as int).push(self.filled@[i as int]));
                assert forall|k: Seq<Value>| #[trigger] holds_key(kept@, k) == (holds_key(t1, k) && k != kv) by {
                    if holds_key(t1, k) && k != kv {
                        let j = choose|j: int| 0 <= j < t1.len() && values_of(t1[j]@) == k;
                        if j < i {
                            assert(values_of(self.filled@.take(i as int)[j]@) == k);
                            assert(holds_key(before, k));
                            let m = choose|m: int| 0 <= m < before.len() && values_of(before[m]@) == k;
                            assert(values_of(kept@[m]@) == k);
                        } else {
                            assert(values_of(kept@[kept@.len() - 1]@) == k);
                        }
                    }
                    if holds_key(kept@, k) {
                        let m = choose|m: int| 0 <= m < kept@.len() && values_of(kept@[m]@) == k;
                        if m < before.len() {
                            assert(kept@[m] == before[m]);
                            assert(values_of(before[m]@) == k);
                            assert(holds_key(before, k));
                            assert(holds_key(self.filled@.take(i as int), k));
                            let j = choose|j: int| 0 <= j < self.filled@.take(i as int).len() && values_of(self.filled@.take(i as int)[j]@) == k;
                            assert(values_of(t1[j]@) == k);
                        } else {
                            assert(values_of(t1[i as int]@) == k);
                        }
                    }
                }
            }
            i = i + 1;
        }
        proof {
            assert(self.filled@.take(self.filled@.len() as int) =~= self.filled@);
        }
        self.filled = kept;
        proof {
            assert forall|x: Seq<Value>| #[trigger] self.rows@.count(x) > 0 implies !self.is_hole(self.key(x)) by {
                assert(old(self).rows@.count(x) > 0);
            }
        }
        removed
    }

    /// Whether `key` is a hole here.
    fn hole(&self, key: &[DataType]) -> (r: bool)
        ensures
            r == self.is_hole(values_of(key@)),
    {
        match &self.tags {
            None => false,
            Some(_) => find_key(&self.filled, key).is_none(),
        }
    }
}

/// Each index is well formed, no two share their columns, and no two share a tag.
pub closed spec fn indices_sound(s: Seq<Index>) -> bool {
    &&& forall|i: int| 0 <= i < s.len() ==> (#[trigger] s[i]).wf()
    &&& forall|i: int, j: int| 0 <= i < j < s.len() ==> s[i].cols() != s[j].cols()
    &&& forall|i: int, j: int, t: Tag|
        0 <= i < j < s.len() && #[trigger] s[i].has_tag(t) ==> !#[trigger] s[j].has_tag(t)
}

/// All fully materialized indices hold the same rows.
pub open spec fn full_agree(s: Seq<Index>) -> bool {
    forall|i: int, j: int|
        0 <= i < s.len() && 0 <= j < s.len() && !(#[trigger] s[i]).partial() && !(#[trigger] s[j]).partial()
            ==> s[i].contents() == s[j].contents()
}

pub closed spec fn indices_wf(s: Seq<Index>) -> bool {
    indices_sound(s) && full_agree(s)
}

/// Replacing one index by a well-formed one of the same shape keeps the
/// indices well formed.
proof fn lemma_replace_index(s: Seq<Index>, i: int, ix: Index)
    requires
        indices_sound(s),
        0 <= i < s.len(),
        ix.wf(),
        ix.same_shape(s[i]),
    ensures
        indices_sound(s.update(i, ix)),
        full_agree(s) && ix.partial() ==> full_agree(s.update(i, ix)),
{
    let s2 = s.update(i, ix);
    assert forall|a: int, b: int, t: Tag|
        0 <= a < b < s2.len() && #[trigger] s2[a].has_tag(t) implies !#[trigger] s2[b].has_tag(t) by {
        assert(s[a].has_tag(t));
    }
}

/// The materialized state of one dataflow node: zero or more indices over one
/// logical set of rows.
pub struct State {
    indices: Vec<Index>,
}

impl State {
    pub closed spec fn view(&self) -> Seq<Index> {
        self.indices@
    }

    pub closed spec fn wf(&self) -> bool {
        indices_wf(self.indices@)
    }

    /// Whether the state is keyed on anything.
    pub open spec fn useful(&self) -> bool {
        self@.len() > 0
    }

    /// Whether some index is partial.
    pub open spec fn partial(&self) -> bool {
        exists|i: int| 0 <= i < self@.len() && #[trigger] self@[i].partial()
    }

    /// The index over exactly `cols`.
    pub open spec fn index_on(&self, cols: Seq<usize>) -> Option<int> {
        if exists|i: int| 0 <= i < self@.len() && #[trigger] self@[i].cols() == cols {
            Some(choose|i: int| 0 <= i < self@.len() && #[trigger] self@[i].cols() == cols)
        } else {
            None
        }
    }

    /// The index that replays along `t`.
    pub open spec fn index_of_tag(&self, t: Tag) -> Option<int> {
        if exists|i: int| 0 <= i < self@.len() && #[trigger] self@[i].has_tag(t) {
            Some(choose|i: int| 0 <= i < self@.len() && #[trigger] self@[i].has_tag(t))
        } else {
            None
        }
    }

    /// The number of rows the state holds, copies counted.
    pub open spec fn row_count(&self) -> nat {
        if exists|i: int| 0 <= i < self@.len() && !(#[trigger] self@[i]).partial() {
            self@[choose|i: int| 0 <= i < self@.len() && !(#[trigger] self@[i]).partial()].contents().len()
        } else if self.useful() {
            self@[0].contents().len()
        } else {
            0
        }
    }

    /// A state with no index.
    pub fn new() -> (r: State)
        ensures
            r.wf(),
            r@.len() == 0,
    {
        State { indices: Vec::new() }
    }

    fn find_columns(&self, cols: &[usize]) -> (r: Option<usize>)
        requires
            self.wf(),
        ensures
            r is Some <==> self.index_on(cols@) is Some,
            r matches Some(i) ==> self.index_on(cols@) == Some(i as int) && i < self@.len(),
    {
        let mut i: usize = 0;
        while i < self.indices.len()
            invariant
                self.wf(),
                i <= self@.len(),
                forall|j: int| 0 <= j < i ==> self@[j].cols() != cols@,
            decreases self@.len() - i,
        {
            if same_columns(self.indices[i].columns.as_slice(), cols) {
                proof {
                    let k = choose|k: int| 0 <= k < self@.len() && #[trigger] self@[k].cols() == cols@;
                    assert(self@[i as int].cols() == cols@);
                    if k != i {
                        assert(false);
                    }
                }
                return Some(i);
            }
            i = i + 1;
        }
        None
    }

    fn find_tag(&self, t: Tag) -> (r: Option<usize>)
        requires
            self.wf(),
        ensures
            r is Some <==> self.index_of_tag(t) is Some,
            r matches Some(i) ==> self.index_of_tag(t) == Some(i as int) && i < self@.len(),
    {
        let mut i: usize = 0;
        while i < self.indices.len()
            invariant
                self.wf(),
                i <= self@.len(),
                forall|j: int| 0 <= j < i ==> !self@[j].has_tag(t),
            decreases self@.len() - i,
        {
            let hit = match &self.indices[i].tags {
                Some(ts) => has_tag_in(ts, t),
                None => false,
            };
            if hit {
                proof {
                    assert(self@[i as int].has_tag(t));
                    let k = choose|k: int| 0 <= k < self@.len() && #[trigger] self@[k].has_tag(t);
                    if k < i {
                        assert(false);
                    } else if k > i {
                        assert(!self@[k].has_tag(t));
                    }
                }
                return Some(i);
            }
            i = i + 1;
        }
        None
    }

    /// Whether the state is keyed on anything.
    pub fn is_useful(&self) -> (r: bool)
        ensures
            r == self.useful(),
    {
        self.indices.len() > 0
    }

    /// Whether some index is partial.
    pub fn is_partial(&self) -> (r: bool)
        ensures
            r == self.partial(),
    {
        let mut i: usize = 0;
        while i < self.indices.len()
            invariant
                i <= self@.len(),
                forall|j: int| 0 <= j < i ==> !self@[j].partial(),
            decreases self@.len() - i,
        {
            if self.indices[i].tags.is_some() {
                proof {
                    assert(self@[i as int].partial());
                }
                return true;
            }
            i = i + 1;
        }
        false
    }

    /// The column sets of all indices, in the order they were added.
    pub fn keys(&self) -> (r: Vec<Vec<usize>>)
        ensures
            r@.len() == self@.len(),
            forall|i: int| 0 <= i < r@.len() ==> (#[trigger] r@[i])@ == self@[i].cols(),
            self.wf() ==> forall|i: int, j: int| 0 <= i < j < r@.len() ==> r@[i]@ != r@[j]@,
    {
        let mut r: Vec<Vec<usize>> = Vec::new();
        let mut i: usize = 0;
        while i < self.indices.len()
            invariant
                i <= self@.len(),
                r@.len() == i,
                forall|j: int| 0 <= j < i ==> (#[trigger] r@[j])@ == self@[j].cols(),
            decreases self@.len() - i,
        {
            r.push(self.indices[i].columns.clone());
            i = i + 1;
        }
        r
    }

    /// The number of rows held, copies counted.
    pub fn len(&self) -> (r: usize)
        requires
            self.wf(),
        ensures
            r == self.row_count(),
            forall|i: int| 0 <= i < self@.len() && !(#[trigger] self@[i]).partial() ==> r == self@[i].contents().len(),
    {
        if self.indices.len() == 0 {
            return 0;
        }
        let k = match self.first_full() {
            Some(f) => f,
            None => 0,
        };
        proof {
            assert(self@[k as int].wf());
        }
        self.indices[k].rows.len()
    }

    /// Adds an index over `columns`; with `partial` tags it starts with every
    /// key a hole, else it holds the rows of the first index. Adding an index
    /// over columns already indexed changes nothing.
    pub fn add_key(&mut self, columns: &[usize], partial: Option<Vec<Tag>>)
        requires
            old(self).wf(),
            old(self).index_on(columns@) is None ==> forall|t: Tag|
                (partial matches Some(ts) && ts@.contains(t)) ==> old(self).index_of_tag(t) is None,
            old(self).index_on(columns@) is None && partial is None ==> (exists|j: int|
                0 <= j < old(self)@.len() && !(#[trigger] old(self)@[j]).partial()) || forall|j: int|
                0 <= j < old(self)@.len() ==> (#[trigger] old(self)@[j]).contents().len() == 0,
        ensures
            final(self).wf(),
            old(self).index_on(columns@) is Some ==> final(self)@ == old(self)@,
            old(self).index_on(columns@) is None ==> {
                &&& final(self)@.len() == old(self)@.len() + 1
                &&& final(self)@.take(old(self)@.len() as int) == old(self)@
                &&& final(self)@.last().cols() == columns@
                &&& final(self)@.last().partial() == partial is Some
                &&& forall|t: Tag| #[trigger] final(self)@.last().has_tag(t) == (partial matches Some(ts) && ts@.contains(t))
                &&& forall|k: Seq<Value>| !#[trigger] final(self)@.last().is_filled(k)
                &&& partial is Some ==> final(self)@.last().contents() =~= Multiset::empty()
                &&& partial is None ==> forall|j: int|
                    0 <= j < old(self)@.len() && !(#[trigger] old(self)@[j]).partial()
                        ==> final(self)@.last().contents() == old(self)@[j].contents()
                &&& (partial is None && forall|j: int| 0 <= j < old(self)@.len() ==> (#[trigger] old(self)@[j]).partial())
                        ==> final(self)@.last().contents() =~= Multiset::empty()
            },
    {
        if self.find_columns(columns).is_some() {
            return;
        }
        let rows = match (&partial, self.first_full()) {
            (None, Some(f)) => {
                proof {
                    assert(self@[f as int].wf());
                }
                Rows::from_rows(self.indices[f].rows.to_vec())
            },
            _ => Rows::new(),
        };
        let ix = Index { columns: copy_columns(columns), tags: partial, rows, filled: Vec::new() };
        proof {
            assert forall|k: Seq<Value>| !ix.is_filled(k) by {}
            assert forall|r: Seq<Value>| #[trigger] ix.rows@.count(r) > 0 implies !ix.is_hole(ix.key(r)) by {}
        }
        let ghost n = self@.len();
        self.indices.push(ix);
        proof {
            assert(self@.take(n as int) =~= old(self)@);
            assert forall|i: int, j: int|
                0 <= i < j < self.indices@.len() implies self.indices@[i].cols() != self.indices@[j].cols() by {
                if j == n {
                    assert(old(self)@[i].cols() != columns@);
                }
            }
            assert forall|i: int, j: int, t: Tag|
                0 <= i < j < self.indices@.len() && #[trigger] self.indices@[i].has_tag(t)
                    implies !#[trigger] self.indices@[j].has_tag(t) by {
                if j == n && self@[j].has_tag(t) {
                    assert(old(self)@[i].has_tag(t));
                    assert(partial matches Some(ts) && ts@.contains(t));
                    assert(old(self).index_of_tag(t) is None);
                    assert(false);
                }
            }
            assert forall|i: int| 0 <= i < self.indices@.len() implies (#[trigger] self.indices@[i]).wf() by {
                if i < n {
                    assert(old(self)@[i].wf());
                }
            }
            assert forall|a: int, b: int|
                0 <= a < self@.len() && 0 <= b < self@.len() && !(#[trigger] self@[a]).partial()
                    && !(#[trigger] self@[b]).partial() implies self@[a].contents() == self@[b].contents() by {
                if a < n && b < n {
                    assert(old(self)@[a] == self@[a] && old(self)@[b] == self@[b]);
                } else if a < n {
                    assert(old(self)@[a] == self@[a]);
                } else if b < n {
                    assert(old(self)@[b] == self@[b]);
                }
            }
        }
    }

    /// The first fully materialized index, if any.
    fn first_full(&self) -> (r: Option<usize>)
        ensures
            r is None ==> forall|j: int| 0 <= j < self@.len() ==> (#[trigger] self@[j]).partial(),
            r matches Some(f) ==> f < self@.len() && !self@[f as int].partial()
                && forall|j: int| 0 <= j < f ==> (#[trigger] self@[j]).partial(),
    {
        let mut i: usize = 0;
        while i < self.indices.len()
            invariant
                i <= self@.len(),
                forall|j: int| 0 <= j < i ==> (#[trigger] self@[j]).partial(),
            decreases self@.len() - i,
        {
            if self.indices[i].tags.is_none() {
                return Some(i);
            }
            i = i + 1;
        }
        None
    }

    /// The rows of the index over `columns` whose key is `key`; `Missing` where
    /// that key is a hole of a partial index.
    pub fn lookup<'a>(&'a self, columns: &[usize], key: &[DataType]) -> (r: LookupResult<'a>)
        requires
            self.wf(),
            self.index_on(columns@) is Some,
        ensures
            ({
                let ix = self@[self.index_on(columns@)->0];
                match r {
                    LookupResult::Missing => ix.is_hole(values_of(key@)),
                    LookupResult::Found(rr) => {
                        &&& !ix.is_hole(values_of(key@))
                        &&& rr.wf()
                        &&& forall|x: Seq<Value>| #[trigger] rr@.count(x) == if ix.key(x) == values_of(key@) {
                            ix.contents().count(x)
                        } else {
                            0
                        }
                    },
                }
            }),
    {
        let i = self.find_columns(columns).unwrap();
        let ix = &self.indices[i];
        proof {
            assert(self@[i as int].wf());
        }
        if ix.hole(key) {
            LookupResult::Missing
        } else {
            let v = ix.rows.select(ix.columns.as_slice(), key);
            let rr = RecordResult::Owned(v);
            proof {
                assert(rr@ == rows_multiset(v@));
            }
            LookupResult::Found(rr)
        }
    }

    /// A copy of every row; `None` where some index is partial, since a partial
    /// state does not hold the complete set.
    pub fn cloned_records(&self) -> (r: Option<Vec<Vec<DataType>>>)
        requires
            self.wf(),
        ensures
            r is None <==> self.partial(),
            r matches Some(v) ==> rows_multiset(v@) == if self.useful() {
                self@[0].contents()
            } else {
                Multiset::empty()
            },
            r matches Some(v) ==> forall|i: int| 0 <= i < self@.len() ==> rows_multiset(v@) == (#[trigger] self@[i]).contents(),
    {
        if self.is_partial() {
            return None;
        }
        if self.indices.len() == 0 {
            let v: Vec<Vec<DataType>> = Vec::new();
            proof {
                crate::rows::lemma_rows_multiset_empty(v@);
            }
            return Some(v);
        }
        proof {
            assert(self@[0].wf());
        }
        Some(self.indices[0].rows.to_vec())
    }

    /// Removes every row from every index; each partial index is left with
    /// every key a hole. The indices stay.
    pub fn clear(&mut self)
        requires
            old(self).wf(),
        ensures
            final(self).wf(),
            final(self)@.len() == old(self)@.len(),
            forall|i: int| 0 <= i < final(self)@.len() ==> {
                &&& (#[trigger] final(self)@[i]).cols() == old(self)@[i].cols()
                &&& final(self)@[i].partial() == old(self)@[i].partial()
                &&& forall|t: Tag| final(self)@[i].has_tag(t) == old(self)@[i].has_tag(t)
                &&& final(self)@[i].contents() =~= Multiset::empty()
                &&& forall|k: Seq<Value>| !final(self)@[i].is_filled(k)
            },
    {
        let mut i: usize = 0;
        while i < self.indices.len()
            invariant
                old(self).wf(),
                indices_sound(self.indices@),
                self@.len() == old(self)@.len(),
                i <= self@.len(),
                forall|j: int| 0 <= j < self@.len() ==> {
                    &&& (#[trigger] self@[j]).cols() == old(self)@[j].cols()
                    &&& self@[j].tags == old(self)@[j].tags
                },
                forall|j: int| 0 <= j < i ==> {
                    &&& (#[trigger] self@[j]).contents() =~= Multiset::empty()
                    &&& forall|k: Seq<Value>| !self@[j].is_filled(k)
                },
            decreases self@.len() - i,
        {
            self.indices[i].rows.clear();
            self.indices[i].filled = Vec::new();
            proof {
                let ix = self@[i as int];
                assert forall|r: Seq<Value>| #[trigger] ix.rows@.count(r) > 0 implies !ix.is_hole(ix.key(r)) by {}
                assert(ix.wf());
                assert forall|j: int, k: int, t: Tag|
                    0 <= j < k < self.indices@.len() && #[trigger] self.indices@[j].has_tag(t)
                        implies !#[trigger] self.indices@[k].has_tag(t) by {
                    assert(old(self)@[j].has_tag(t) == self@[j].has_tag(t));
                    assert(old(self)@[k].has_tag(t) == self@[k].has_tag(t));
                }
            }
            i = i + 1;
        }
        proof {
            assert forall|a: int, b: int|
                0 <= a < self@.len() && 0 <= b < self@.len() && !(#[trigger] self@[a]).partial()
                    && !(#[trigger] self@[b]).partial() implies self@[a].contents() == self@[b].contents() by {
                assert(self@[a].contents() =~= Multiset::empty());
                assert(self@[b].contents() =~= Multiset::empty());
            }
        }
    }

    /// Applies a batch of records to every index, in order. With a replay tag
    /// that targets an index, the records whose key is a hole there are first
    /// taken out of `records`, and are not applied. A partial index skips the
    /// records whose key is a hole in it.
    pub fn process_records(&mut self, records: &mut Vec<Record>, partial_tag: Option<Tag>)
        requires
            old(self).wf(),
            old(self).useful(),
            forall|i: int| 0 <= i < old(self)@.len() ==>
                (#[trigger] old(self)@[i]).contents().len() + old(records)@.len() < usize::MAX,
        ensures
            final(self).wf(),
            final(self)@.len() == old(self)@.len(),
            final(records)@ == match partial_tag {
                Some(t) => match old(self).index_of_tag(t) {
                    Some(j) => old(records)@.filter(|r: Record| !old(self)@[j].is_hole(old(self)@[j].key(r.row()))),
                    None => old(records)@,
                },
                None => old(records)@,
            },
            forall|i: int| 0 <= i < final(self)@.len() ==> {
                &&& (#[trigger] final(self)@[i]).same_marks(old(self)@[i])
                &&& final(self)@[i].contents() == old(self)@[i].after(old(self)@[i].contents(), final(records)@)
            },
    {
        if let Some(t) = partial_tag {
            if let Some(j) = self.find_tag(t) {
                strip(&self.indices[j], records);
            }
        }
        let ghost recs = records@;
        let mut i: usize = 0;
        while i < self.indices.len()
            invariant
                indices_sound(self.indices@),
                self@.len() == old(self)@.len(),
                i <= self@.len(),
                records@ == recs,
                forall|j: int| 0 <= j < old(self)@.len() ==>
                    (#[trigger] old(self)@[j]).contents().len() + recs.len() < usize::MAX,
                forall|j: int| 0 <= j < self@.len() ==> {
                    &&& (#[trigger] self@[j]).columns@ == old(self)@[j].columns@
                    &&& self@[j].tags == old(self)@[j].tags
                    &&& self@[j].filled@ == old(self)@[j].filled@
                },
                forall|j: int| 0 <= j < i ==> (#[trigger] self@[j]).contents() == old(self)@[j].after(old(self)@[j].contents(), recs),
                forall|j: int| i <= j < self@.len() ==> (#[trigger] self@[j]).contents() == old(self)@[j].contents(),
            decreases self@.len() - i,
        {
            let ghost o = old(self)@[i as int];
            let mut n: usize = 0;
            proof {
                assert(recs.take(0).len() == 0);
            }
            while n < records.len()
                invariant
                    indices_sound(self.indices@),
                    self@.len() == old(self)@.len(),
                    i < self@.len(),
                    n <= recs.len(),
                    records@ == recs,
                    o == old(self)@[i as int],
                    o.contents().len() + recs.len() < usize::MAX,
                    self@[i as int].contents().len() <= o.contents().len() + n,
                    forall|j: int| 0 <= j < self@.len() ==> {
                        &&& (#[trigger] self@[j]).columns@ == old(self)@[j].columns@
                        &&& self@[j].tags == old(self)@[j].tags
                        &&& self@[j].filled@ == old(self)@[j].filled@
                    },
                    forall|j: int| 0 <= j < i ==> (#[trigger] self@[j]).contents() == old(self)@[j].after(old(self)@[j].contents(), recs),
                    forall|j: int| i < j < self@.len() ==> (#[trigger] self@[j]).contents() == old(self)@[j].contents(),
                    self@[i as int].contents() == o.after(o.contents(), recs.take(n as int)),
                decreases recs.len() - n,
            {
                let ghost s0 = self.indices@;
                proof {
                    assert(s0[i as int].wf());
                }
                self.indices[i].apply(&records[n]);
                proof {
                    let s1 = self.indices@;
                    assert(s1 == s0.update(i as int, s1[i as int]));
                    lemma_replace_index(s0, i as int, s1[i as int]);
                    let t1 = recs.take(n as int + 1);
                    assert(t1.drop_last() =~= recs.take(n as int));
                    assert(t1.last() == recs[n as int]);
                    assert(s0[i as int].is_hole(s0[i as int].key(recs[n as int].row())) == o.is_hole(o.key(recs[n as int].row())));
                }
                n = n + 1;
            }
            proof {
                assert(recs.take(recs.len() as int) =~= recs);
            }
            i = i + 1;
        }
        proof {
            assert forall|a: int, b: int|
                0 <= a < self@.len() && 0 <= b < self@.len() && !(#[trigger] self@[a]).partial()
                    && !(#[trigger] self@[b]).partial() implies self@[a].contents() == self@[b].contents() by {
                lemma_full_index_replays(old(self)@[a], old(self)@[a].contents(), recs);
                lemma_full_index_replays(old(self)@[b], old(self)@[b].contents(), recs);
                assert(!old(self)@[a].partial() && !old(self)@[b].partial());
            }
        }
    }

    /// Records `key` as filled in the index that `tag` replays into.
    pub fn mark_filled(&mut self, key: Vec<DataType>, tag: Tag)
        requires
            old(self).wf(),
        ensures
            final(self).wf(),
            final(self)@.len() == old(self)@.len(),
            old(self).index_of_tag(tag) is None ==> final(self)@ == old(self)@,
            old(self).index_of_tag(tag) matches Some(i) ==> {
                &&& forall|j: int| 0 <= j < final(self)@.len() && j != i ==> final(self)@[j] == old(self)@[j]
                &&& final(self)@[i].same_shape(old(self)@[i])
                &&& final(self)@[i].contents() == old(self)@[i].contents()
                &&& forall|k: Seq<Value>| #[trigger] final(self)@[i].is_filled(k) == (old(self)@[i].is_filled(k) || k == values_of(key@))
            },
    {
        match self.find_tag(tag) {
            None => {},
            Some(i) => {
                let ghost s0 = self.indices@;
                proof {
                    assert(s0[i as int].wf());
                }
                self.indices[i].fill(key);
                proof {
                    let s1 = self.indices@;
                    assert(s1 == s0.update(i as int, s1[i as int]));
                    lemma_replace_index(s0, i as int, s1[i as int]);
                }
            },
        }
    }

    /// Makes `key` a hole again in the index that `tag` replays into, dropping
    /// the rows under it.
    pub fn mark_hole(&mut self, key: &[DataType], tag: Tag)
        requires
            old(self).wf(),
        ensures
            final(self).wf(),
            final(self)@.len() == old(self)@.len(),
            old(self).index_of_tag(tag) is None ==> final(self)@ == old(self)@,
            old(self).index_of_tag(tag) matches Some(i) ==> {
                &&& forall|j: int| 0 <= j < final(self)@.len() && j != i ==> final(self)@[j] == old(self)@[j]
                &&& final(self)@[i].same_shape(old(self)@[i])
                &&& forall|k: Seq<Value>| #[trigger] final(self)@[i].is_filled(k) == (old(self)@[i].is_filled(k) && k != values_of(key@))
                &&& forall|r: Seq<Value>| #[trigger] final(self)@[i].contents().count(r) == if old(self)@[i].key(r) == values_of(key@) {
                    0
                } else {
                    old(self)@[i].contents().count(r)
                }
            },
    {
        match self.find_tag(tag) {
            None => {},
            Some(i) => {
                let ghost s0 = self.indices@;
                proof {
                    assert(s0[i as int].wf());
                    assert(s0[i as int].has_tag(tag));
                }
                self.indices[i].unfill(key);
                proof {
                    let s1 = self.indices@;
                    assert(s1 == s0.update(i as int, s1[i as int]));
                    lemma_replace_index(s0, i as int, s1[i as int]);
                }
            },
        }
    }

    /// Evicts the given keys from the index that `tag` replays into: their
    /// rows are dropped and they become holes. Returns that index's columns
    /// and the bytes freed, or `None` where no index has that tag.
    pub fn evict_keys(&mut self, tag: Tag, keys: &[Vec<DataType>]) -> (r: Option<(Vec<usize>, u64)>)
        requires
            old(self).wf(),
        ensures
            final(self).wf(),
            final(self)@.len() == old(self)@.len(),
            r is None <==> old(self).index_of_tag(tag) is None,
            r is None ==> final(self)@ == old(self)@,
            old(self).index_of_tag(tag) matches Some(i) ==> r matches Some((c, b)) && {
                &&& c@ == old(self)@[i].cols()
                &&& forall|j: int| 0 <= j < final(self)@.len() && j != i ==> final(self)@[j] == old(self)@[j]
                &&& final(self)@[i].same_shape(old(self)@[i])
                &&& forall|k: Seq<Value>| #[trigger] final(self)@[i].is_filled(k) == (old(self)@[i].is_filled(k) && !holds_key(keys@, k))
                &&& forall|x: Seq<Value>| #[trigger] final(self)@[i].contents().count(x) == if holds_key(keys@, old(self)@[i].key(x)) {
                    0
                } else {
                    old(self)@[i].contents().count(x)
                }
                &&& (b > 0) ==> exists|x: Seq<Value>| old(self)@[i].contents().count(x) > 0 && holds_key(keys@, old(self)@[i].key(x))
                &&& charges(b, old(self)@[i], keys@)
            },
    {
        let i = match self.find_tag(tag) {
            None => return None,
            Some(i) => i,
        };
        let ghost o = old(self)@[i as int];
        let mut freed: u64 = 0;
        let mut n: usize = 0;
        let ghost mut acc: Seq<Vec<DataType>> = Seq::empty();
        proof {
            crate::rows::lemma_rows_multiset_empty(acc);
            assert(o.has_tag(tag));
            assert forall|k: Seq<Value>| !holds_key(keys@.take(0), k) by {}
        }
        while n < keys.len()
            invariant
                self.wf(),
                self@.len() == old(self)@.len(),
                i < self@.len(),
                n <= keys@.len(),
                o == old(self)@[i as int],
                o.partial(),
                forall|j: int| 0 <= j < self@.len() && j != i ==> self@[j] == old(self)@[j],
                self@[i as int].columns@ == o.columns@,
                self@[i as int].tags == o.tags,
                forall|k: Seq<Value>| #[trigger] self@[i as int].is_filled(k) == (o.is_filled(k) && !holds_key(keys@.take(n as int), k)),
                forall|x: Seq<Value>| #[trigger] self@[i as int].contents().count(x) == if holds_key(keys@.take(n as int), o.key(x)) {
                    0
                } else {
                    o.contents().count(x)
                },
                (freed > 0) ==> exists|x: Seq<Value>| o.contents().count(x) > 0 && holds_key(keys@.take(n as int), o.key(x)),
                forall|x: Seq<Value>| #[trigger] rows_multiset(acc).count(x) == if holds_key(keys@.take(n as int), o.key(x)) {
                    o.contents().count(x)
                } else {
                    0
                },
                freed as nat == saturate(rows_bytes(acc)),
            decreases keys@.len() - n,
        {
            let ghost s0 = self.indices@;
            let ghost cur = s0[i as int];
            proof {
                assert(cur.wf());
            }
            let removed = self.indices[i].unfill(keys[n].as_slice());
            let b = bytes_of_rows(&removed);
            proof {
                let s1 = self.indices@;
                assert(s1 == s0.update(i as int, s1[i as int]));
                lemma_replace_index(s0, i as int, s1[i as int]);
                let kn = values_of(keys@[n as int]@);
                assert forall|k: Seq<Value>| #[trigger] holds_key(keys@.take(n as int + 1), k) == (holds_key(keys@.take(n as int), k) || k == kn) by {
                    lemma_holds_key_take(keys@, n as int, k);
                }
                lemma_removed_empty(removed@, cur.contents(), |x: Seq<Value>| cur.key(x) == kn);
                let pick_old = |x: Seq<Value>| holds_key(keys@.take(n as int), o.key(x));
                if exists|x: Seq<Value>| o.contents().count(x) > 0 && holds_key(keys@.take(n as int + 1), o.key(x)) {
                    let x = choose|x: Seq<Value>| o.contents().count(x) > 0 && holds_key(keys@.take(n as int + 1), o.key(x));
                    if !holds_key(keys@.take(n as int), o.key(x)) {
                        assert(cur.contents().count(x) > 0);
                    }
                }
                if exists|x: Seq<Value>| cur.contents().count(x) > 0 && cur.key(x) == kn {
                    let x = choose|x: Seq<Value>| cur.contents().count(x) > 0 && cur.key(x) == kn;
                    assert(o.contents().count(x) > 0 && holds_key(keys@.take(n as int + 1), o.key(x)));
                }
                lemma_rows_bytes_concat(acc, removed@);
                lemma_rows_multiset_concat(acc, removed@);
                acc = acc + removed@;
            }
            freed = if freed <= u64::MAX - b { freed + b } else { u64::MAX };
            n = n + 1;
        }
        proof {
            assert(keys@.take(keys@.len() as int) =~= keys@);
            assert(charges(freed, o, keys@));
        }
        Some((copy_columns(self.indices[i].columns.as_slice()), freed))
    }

    /// Evicts keys from one index, the one at `spread` modulo the number of
    /// indices, so that successive values of `spread` go to distinct indices.
    /// Keys are taken from the index's rows in turn, starting at the row that
    /// `seed` picks, until `bytes` bytes are freed or the index is empty.
    /// Returns the index's columns, the keys evicted and the bytes freed.
    pub fn evict_random_keys(&mut self, bytes: u64, spread: usize, seed: usize) -> (r: (Vec<usize>, Vec<Vec<DataType>>, u64))
        requires
            old(self).wf(),
            old(self).useful(),
        ensures
            final(self).wf(),
            final(self)@.len() == old(self)@.len(),
            ({
                let i = spread as int % old(self)@.len() as int;
                let o = old(self)@[i];
                &&& r.0@ == o.cols()
                &&& forall|j: int| 0 <= j < final(self)@.len() && j != i ==> final(self)@[j] == old(self)@[j]
                &&& final(self)@[i].same_shape(o)
                &&& forall|k: Seq<Value>| #[trigger] final(self)@[i].is_filled(k) == (o.is_filled(k) && !holds_key(r.1@, k))
                &&& forall|x: Seq<Value>| #[trigger] final(self)@[i].contents().count(x) == if holds_key(r.1@, o.key(x)) {
                    0
                } else {
                    o.contents().count(x)
                }
                &&& forall|j: int| 0 <= j < r.1@.len() ==> o.holds_rows_under(values_of(#[trigger] r.1@[j]@))
                &&& forall|a: int, b: int| 0 <= a < b < r.1@.len() ==> values_of(r.1@[a]@) != values_of(r.1@[b]@)
                &&& (r.2 > 0) ==> exists|x: Seq<Value>| o.contents().count(x) > 0 && holds_key(r.1@, o.key(x))
                &&& charges(r.2, o, r.1@)
                &&& r.1@.len() > 0 ==> exists|b0: u64| b0 < bytes && charges(b0, o, r.1@.drop_last())
                &&& o.partial() ==> r.2 >= bytes || final(self)@[i].contents().len() == 0
                &&& !o.partial() ==> r.1@.len() == 0 && final(self)@ == old(self)@
            }),
    {
        let i = spread % self.indices.len();
        let ghost o = old(self)@[i as int];
        proof {
            assert(o.wf());
        }
        if self.indices[i].tags.is_none() {
            let none: Vec<Vec<DataType>> = Vec::new();
            proof {
                let rm = Seq::<Vec<DataType>>::empty();
                crate::rows::lemma_rows_multiset_empty(rm);
                assert(rows_bytes(rm) == 0);
                assert forall|x: Seq<Value>| #[trigger] rows_multiset(rm).count(x) == if holds_key(none@, o.key(x)) {
                    o.contents().count(x)
                } else {
                    0
                } by {}
                assert(charges(0, o, none@));
            }
            return (copy_columns(self.indices[i].columns.as_slice()), none, 0);
        }
        let snap = self.indices[i].rows.to_vec();
        let len = snap.len();
        let start: usize = if len == 0 { 0 } else { seed % len };
        let mut evicted: Vec<Vec<DataType>> = Vec::new();
        let mut freed: u64 = 0;
        let mut m: usize = 0;
        let ghost mut acc: Seq<Vec<DataType>> = Seq::empty();
        proof {
            crate::rows::lemma_rows_multiset_empty(acc);
        }
        while m < len && freed < bytes
            invariant
                self.wf(),
                self@.len() == old(self)@.len(),
                i < self@.len(),
                o == old(self)@[i as int],
                o.partial(),
                len == snap@.len(),
                m <= len,
                len == 0 || start < len,
                rows_multiset(snap@) =~= o.contents(),
                forall|j: int| 0 <= j < self@.len() && j != i ==> self@[j] == old(self)@[j],
                self@[i as int].columns@ == o.columns@,
                self@[i as int].tags == o.tags,
                forall|k: Seq<Value>| #[trigger] self@[i as int].is_filled(k) == (o.is_filled(k) && !holds_key(evicted@, k)),
                forall|x: Seq<Value>| #[trigger] self@[i as int].contents().count(x) == if holds_key(evicted@, o.key(x)) {
                    0
                } else {
                    o.contents().count(x)
                },
                (freed > 0) ==> exists|x: Seq<Value>| o.contents().count(x) > 0 && holds_key(evicted@, o.key(x)),
                forall|x: Seq<Value>| #[trigger] rows_multiset(acc).count(x) == if holds_key(evicted@, o.key(x)) {
                    o.contents().count(x)
                } else {
                    0
                },
                freed as nat == saturate(rows_bytes(acc)),
                evicted@.len() > 0 ==> exists|b0: u64| b0 < bytes && charges(b0, o, evicted@.drop_last()),
                forall|j: int| 0 <= j < evicted@.len() ==> o.holds_rows_under(values_of(#[trigger] evicted@[j]@)),
                forall|a: int, b: int| 0 <= a < b < evicted@.len() ==> values_of(evicted@[a]@) != values_of(evicted@[b]@),
                forall|q: int| 0 <= q < len && ((start <= q < start + m) || q < start + m - len)
                    ==> holds_key(evicted@, o.key(values_of(#[trigger] snap@[q]@))),
            decreases len - m,
        {
            let q: usize = if m < len - start { start + m } else { m - (len - start) };
            let k = key_of(snap[q].as_slice(), self.indices[i].columns.as_slice());
            let ghost kv = values_of(k@);
            if find_key(&evicted, k.as_slice()).is_none() {
                let ghost s0 = self.indices@;
                let ghost cur = s0[i as int];
                let ghost ev0 = evicted@;
                proof {
                    assert(cur.wf());
                    assert(charges(freed, o, ev0));
                }
                let removed = self.indices[i].unfill(k.as_slice());
                let b = bytes_of_rows(&removed);
                evicted.push(k);
                proof {
                    let s1 = self.indices@;
                    assert(s1 == s0.update(i as int, s1[i as int]));
                    lemma_replace_index(s0, i as int, s1[i as int]);
                    assert(evicted@.take(ev0.len() as int) =~= ev0);
                    assert(evicted@.drop_last() =~= ev0);
                    assert(ev0 =~= evicted@.take(ev0.len() as int));
                    assert forall|kk: Seq<Value>| #[trigger] holds_key(evicted@, kk) == (holds_key(ev0, kk) || kk == kv) by {
                        lemma_holds_key_take(evicted@, ev0.len() as int, kk);
                        assert(evicted@.take(ev0.len() as int + 1) =~= evicted@);
                    }
                    lemma_removed_empty(removed@, cur.contents(), |x: Seq<Value>| cur.key(x) == kv);
                    let t = snap@.map_values(|v: Vec<DataType>| values_of(v@));
                    let xq = values_of(snap@[q as int]@);
                    assert(t[q as int] == xq);
                    assert(t.contains(xq));
                    assert(o.contents().count(xq) > 0);
                    assert(o.key(xq) == kv);
                    assert(o.holds_rows_under(kv));
                    assert forall|j: int| 0 <= j < evicted@.len() implies o.holds_rows_under(values_of(#[trigger] evicted@[j]@)) by {
                        if j < ev0.len() {
                            assert(evicted@[j] == ev0[j]);
                        } else {
                            assert(values_of(evicted@[j]@) == kv);
                        }
                    }
                    assert forall|a: int, b: int| 0 <= a < b < evicted@.len() implies values_of(evicted@[a]@) != values_of(evicted@[b]@) by {
                        assert(evicted@[a] == ev0[a]);
                        if b < ev0.len() {
                            assert(evicted@[b] == ev0[b]);
                        } else {
                            assert(!holds_key(ev0, kv));
                        }
                    }
                    if exists|x: Seq<Value>| o.contents().count(x) > 0 && holds_key(evicted@, o.key(x)) {
                        let x = choose|x: Seq<Value>| o.contents().count(x) > 0 && holds_key(evicted@, o.key(x));
                        if !holds_key(ev0, o.key(x)) {
                            assert(cur.contents().count(x) > 0);
                        }
                    }
                    if exists|x: Seq<Value>| cur.contents().count(x) > 0 && cur.key(x) == kv {
                        let x = choose|x: Seq<Value>| cur.contents().count(x) > 0 && cur.key(x) == kv;
                        assert(o.contents().count(x) > 0 && holds_key(evicted@, o.key(x)));
                    }
                    lemma_rows_bytes_concat(acc, removed@);
                    lemma_rows_multiset_concat(acc, removed@);
                    acc = acc + removed@;
                    assert forall|p: int| 0 <= p < len && ((start <= p < start + m + 1) || p < start + m + 1 - len)
                        implies holds_key(evicted@, o.key(values_of(#[trigger] snap@[p]@))) by {
                        if p != q {
                            assert(holds_key(ev0, o.key(values_of(snap@[p]@))));
                        }
                    }
                }
                freed = if freed <= u64::MAX - b { freed + b } else { u64::MAX };
            }
            m = m + 1;
        }
        proof {
            if freed < bytes {
                let c = self@[i as int].contents();
                assert forall|x: Seq<Value>| c.count(x) == 0 by {
                    if o.contents().count(x) > 0 {
                        let t = snap@.map_values(|v: Vec<DataType>| values_of(v@));
                        assert(t.to_multiset().count(x) > 0);
                        assert(t.contains(x));
                        let p = choose|p: int| 0 <= p < t.len() && t[p] == x;
                        assert(values_of(snap@[p]@) == x);
                        assert(holds_key(evicted@, o.key(values_of(snap@[p]@))));
                    }
                }
                vstd::multiset::lemma_multiset_empty_len(c);
                assert(c =~= Multiset::empty());
            }
        }
        let cols = copy_columns(self.indices[i].columns.as_slice());
        proof {
            assert(charges(freed, o, evicted@));
        }
        (cols, evicted, freed)
    }
}

/// What applying `recs` in order does to the multiset `m` when no key is a
/// hole: an insertion adds one copy, a retraction removes one copy.
pub open spec fn replay(m: Multiset<Seq<Value>>, recs: Seq<Record>) -> Multiset<Seq<Value>>
    decreases recs.len(),
{
    if recs.len() == 0 {
        m
    } else {
        let m2 = replay(m, recs.drop_last());
        if recs.last().is_positive() {
            m2.insert(recs.last().row())
        } else {
            m2.remove(recs.last().row())
        }
    }
}

/// On a fully materialized index, a batch inserts each positive record and
/// removes exactly one matching copy for each negative one.
pub proof fn lemma_full_index_replays(ix: Index, m: Multiset<Seq<Value>>, recs: Seq<Record>)
    requires
        !ix.partial(),
    ensures
        ix.after(m, recs) == replay(m, recs),
    decreases recs.len(),
{
    if recs.len() > 0 {
        lemma_full_index_replays(ix, m, recs.drop_last());
    }
}

/// On any index, the rows under a key that is not a hole end up as the batch
/// makes them, and the rows under a hole are left as they were.
pub proof fn lemma_batch_by_key(ix: Index, m: Multiset<Seq<Value>>, recs: Seq<Record>, x: Seq<Value>)
    ensures
        !ix.is_hole(ix.key(x)) ==> ix.after(m, recs).count(x) == replay(m, recs).count(x),
        ix.is_hole(ix.key(x)) ==> ix.after(m, recs).count(x) == m.count(x),
    decreases recs.len(),
{
    if recs.len() > 0 {
        lemma_batch_by_key(ix, m, recs.drop_last(), x);
    }
}

/// All fully materialized indices of a well-formed state hold the same rows.
pub proof fn lemma_full_indices_agree(s: State, i: int, j: int)
    requires
        s.wf(),
        0 <= i < s@.len(),
        0 <= j < s@.len(),
        !s@[i].partial(),
        !s@[j].partial(),
    ensures
        s@[i].contents() == s@[j].contents(),
{
}

/// No two indices of a well-formed state are over the same columns, so an
/// index is found by its columns.
pub proof fn lemma_columns_identify_index(s: State, i: int)
    requires
        s.wf(),
        0 <= i < s@.len(),
    ensures
        s.index_on(s@[i].cols()) == Some(i),
{
    let k = choose|k: int| 0 <= k < s@.len() && #[trigger] s@[k].cols() == s@[i].cols();
    if k < i {
        assert(s@[k].cols() != s@[i].cols());
    } else if k > i {
        assert(s@[i].cols() != s@[k].cols());
    }
}

/// With more than one index, successive values of `spread` pick indices over
/// distinct column lists.
pub proof fn lemma_spread_distinct_columns(s: State, spread: nat)
    requires
        s.wf(),
        s@.len() > 1,
    ensures
        s@[(spread % s@.len()) as int].cols() != s@[((spread + 1) % s@.len()) as int].cols(),
{
    let n = s@.len();
    lemma_spread_rotates(n, spread);
    vstd::arithmetic::div_mod::lemma_mod_bound(spread as int, n as int);
    vstd::arithmetic::div_mod::lemma_mod_bound(spread as int + 1, n as int);
    let a = (spread % n) as int;
    let b = ((spread + 1) % n) as int;
    if a < b {
        assert(s@[a].cols() != s@[b].cols());
    } else {
        assert(s@[b].cols() != s@[a].cols());
    }
}

/// The rows of a sequence of records, as a multiset.
pub open spec fn records_rows(recs: Seq<Record>) -> Multiset<Seq<Value>> {
    recs.map_values(|r: Record| r.row()).to_multiset()
}

/// Once `k` is filled, inserting rows under `k` into an index that held none
/// there leaves exactly those rows under `k`, copies counted.
pub proof fn lemma_filled_key_collects_inserts(ix: Index, m: Multiset<Seq<Value>>, recs: Seq<Record>, k: Seq<Value>, x: Seq<Value>)
    requires
        !ix.is_hole(k),
        ix.key(x) == k,
        m.count(x) == 0,
        forall|j: int| 0 <= j < recs.len() ==> (#[trigger] recs[j]).is_positive() && ix.key(recs[j].row()) == k,
    ensures
        ix.after(m, recs).count(x) == records_rows(recs).count(x),
    decreases recs.len(),
{
    let f = |r: Record| r.row();
    if recs.len() == 0 {
        vstd::seq_lib::to_multiset_len(recs.map_values(f));
        vstd::multiset::lemma_multiset_empty_len(records_rows(recs));
    } else {
        let init = recs.drop_last();
        lemma_filled_key_collects_inserts(ix, m, init, k, x);
        assert(recs.map_values(f) =~= init.map_values(f).push(recs.last().row()));
        vstd::seq_lib::to_multiset_build(init.map_values(f), recs.last().row());
    }
}

/// A well-formed state holds no row under a hole of a partial index.
pub proof fn lemma_no_rows_under_holes(s: State, i: int, x: Seq<Value>)
    requires
        s.wf(),
        0 <= i < s@.len(),
        s@[i].is_hole(s@[i].key(x)),
    ensures
        s@[i].contents().count(x) == 0,
{
    assert(s@[i].wf());
}

/// A record whose key is a hole of the index is not kept by the stripping of
/// a replayed batch.
pub proof fn lemma_hole_record_stripped(ix: Index, recs: Seq<Record>, rec: Record)
    requires
        ix.is_hole(ix.key(rec.row())),
    ensures
        !recs.filter(|r: Record| !ix.is_hole(ix.key(r.row()))).contains(rec),
{
    let pred = |r: Record| !ix.is_hole(ix.key(r.row()));
    let f = recs.filter(pred);
    if f.contains(rec) {
        let j = choose|j: int| 0 <= j < f.len() && f[j] == rec;
        recs.lemma_filter_pred(pred, j);
    }
}

/// With more than one index, successive values of `spread` pick distinct
/// indices for eviction.
pub proof fn lemma_spread_rotates(n: nat, spread: nat)
    requires
        n > 1,
    ensures
        spread % n != (spread + 1) % n,
{
    vstd::arithmetic::div_mod::lemma_add_mod_noop(spread as int, 1, n as int);
    vstd::arithmetic::div_mod::lemma_small_mod(1, n);
    vstd::arithmetic::div_mod::lemma_mod_bound(spread as int, n as int);
    if spread % n == (spread + 1) % n {
        if spread % n + 1 < n {
            vstd::arithmetic::div_mod::lemma_small_mod((spread % n + 1) as nat, n);
        } else {
            vstd::arithmetic::div_mod::lemma_mod_self_0(n as int);
        }
    }
}

/// `n` capped at `u64::MAX`.
pub open spec fn saturate(n: nat) -> nat {
    if n <= u64::MAX as nat {
        n
    } else {
        u64::MAX as nat
    }
}

/// `b` is the bytes charged for the rows that `ix` holds under the keys `ks`,
/// capped at `u64::MAX`: the bytes of some sequence holding exactly those rows.
pub open spec fn charges(b: u64, ix: Index, ks: Seq<Vec<DataType>>) -> bool {
    exists|rm: Seq<Vec<DataType>>| {
        &&& forall|x: Seq<Value>| #[trigger] rows_multiset(rm).count(x) == if holds_key(ks, ix.key(x)) {
            ix.contents().count(x)
        } else {
            0
        }
        &&& b as nat == saturate(rows_bytes(rm))
    }
}

/// Bytes add up over a concatenation.
proof fn lemma_rows_bytes_concat(a: Seq<Vec<DataType>>, b: Seq<Vec<DataType>>)
    ensures
        rows_bytes(a + b) == rows_bytes(a) + rows_bytes(b),
    decreases b.len(),
{
    if b.len() > 0 {
        lemma_rows_bytes_concat(a, b.drop_last());
        assert((a + b).drop_last() =~= a + b.drop_last());
    } else {
        assert(a + b =~= a);
    }
}

/// Multisets add up over a concatenation.
proof fn lemma_rows_multiset_concat(a: Seq<Vec<DataType>>, b: Seq<Vec<DataType>>)
    ensures
        rows_multiset(a + b) == rows_multiset(a).add(rows_multiset(b)),
{
    let f = |v: Vec<DataType>| values_of(v@);
    assert((a + b).map_values(f) =~= a.map_values(f) + b.map_values(f));
    vstd::seq_lib::lemma_multiset_commutative(a.map_values(f), b.map_values(f));
}

/// A prefix one longer holds one more key.
proof fn lemma_holds_key_take(ks: Seq<Vec<DataType>>, n: int, k: Seq<Value>)
    requires
        0 <= n < ks.len(),
    ensures
        holds_key(ks.take(n + 1), k) == (holds_key(ks.take(n), k) || k == values_of(ks[n]@)),
{
    if holds_key(ks.take(n), k) {
        let j = choose|j: int| 0 <= j < ks.take(n).len() && values_of(ks.take(n)[j]@) == k;
        assert(values_of(ks.take(n + 1)[j]@) == k);
    }
    if k == values_of(ks[n]@) {
        assert(values_of(ks.take(n + 1)[n]@) == k);
    }
    let t1 = ks.take(n + 1);
    if holds_key(t1, k) && k != values_of(ks[n]@) {
        let j = choose|j: int| 0 <= j < t1.len() && values_of(#[trigger] t1[j]@) == k;
        assert(values_of(ks.take(n)[j]@) == k);
    }
}

/// Removed rows come to no bytes exactly when none was held under the key.
proof fn lemma_removed_empty(v: Seq<Vec<DataType>>, m: Multiset<Seq<Value>>, pick: spec_fn(Seq<Value>) -> bool)
    requires
        forall|r: Seq<Value>| #[trigger] rows_multiset(v).count(r) == if pick(r) { m.count(r) } else { 0 },
    ensures
        (v.len() == 0) == !exists|r: Seq<Value>| m.count(r) > 0 && pick(r),
{
    let t = v.map_values(|x: Vec<DataType>| values_of(x@));
    vstd::seq_lib::to_multiset_len(t);
    vstd::multiset::lemma_multiset_empty_len(rows_multiset(v));
    if exists|r: Seq<Value>| m.count(r) > 0 && pick(r) {
        let r = choose|r: Seq<Value>| m.count(r) > 0 && pick(r);
        assert(rows_multiset(v).count(r) > 0);
    }
    if v.len() > 0 {
        let r = choose|r: Seq<Value>| 0 < rows_multiset(v).count(r);
        assert(m.count(r) > 0 && pick(r));
    }
}

/// Takes out of `records` those whose key is a hole of `ix`, keeping the order
/// of the others.
fn strip(ix: &Index, records: &mut Vec<Record>)
    ensures
        final(records)@ == old(records)@.filter(|r: Record| !ix.is_hole(ix.key(r.row()))),
{
    let ghost pred = |r: Record| !ix.is_hole(ix.key(r.row()));
    let ghost orig = records@;
    let total = records.len();
    let mut src: Vec<Record> = Vec::new();
    std::mem::swap(records, &mut src);
    let mut n: usize = 0;
    proof {
        reveal(Seq::filter);
        assert(orig.take(0).filter(pred) =~= Seq::empty());
        assert(records@ =~= Seq::empty());
    }
    while src.len() > 0
        invariant
            n <= orig.len(),
            total == orig.len(),
            src@ == orig.skip(n as int),
            records@ == orig.take(n as int).filter(pred),
            pred == (|r: Record| !ix.is_hole(ix.key(r.row()))),
        decreases src@.len(),
    {
        proof {
            assert(orig.skip(n as int).len() > 0);
        }
        let rec = src.remove(0);
        let k = key_of(rec.data().as_slice(), ix.columns.as_slice());
        let keep = !ix.hole(k.as_slice());
        proof {
            assert(rec == orig[n as int]);
            let t1 = orig.take(n as int + 1);
            assert(t1.drop_last() =~= orig.take(n as int));
            assert(t1.last() == rec);
            assert(keep == pred(rec));
            reveal(Seq::filter);
            if keep {
                assert(t1.filter(pred) == orig.take(n as int).filter(pred).push(rec));
            } else {
                assert(t1.filter(pred) == orig.take(n as int).filter(pred));
            }
        }
        if keep {
            records.push(rec);
        }
        n = n + 1;
        proof {
            assert(src@ =~= orig.skip(n as int));
        }
    }
    proof {
        assert(orig.take(n as int) =~= orig);
    }
}

} // verus!
