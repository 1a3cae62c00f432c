use vstd::prelude::*;
use vstd::multiset::Multiset;
use ahash::RandomState;
use hashbag::HashBag;
use crate::value::{
    DataType, Value, values_of, same_values, copy_values, value_bytes, project, key_of, VALUE_BYTES,
};

verus! {

broadcast use {vstd::multiset::group_multiset_axioms, vstd::multiset::group_multiset_properties};

#[verifier::external_type_specification]
#[verifier::external_body]
pub struct ExRandomState(ahash::RandomState);

#[verifier::external_type_specification]
#[verifier::external_body]
#[verifier::reject_recursive_types(T)]
#[verifier::reject_recursive_types(S)]
pub struct ExHashBag<T, S>(hashbag::HashBag<T, S>);

/// The identifiers that a bag holds, each with its number of occurrences.
pub uninterp spec fn bag_items(b: HashBag<usize, RandomState>) -> Multiset<usize>;

/// Relies on ahash::RandomState::new: a hasher with a per-process random seed.
#[verifier::external_body]
fn random_state() -> (r: RandomState) {
    RandomState::new()
}

/// Relies on hashbag::HashBag::with_hasher: the new bag holds nothing.
#[verifier::external_body]
fn bag_with_hasher(s: RandomState) -> (b: HashBag<usize, RandomState>)
    ensures
        bag_items(b) =~= Multiset::empty(),
{
    HashBag::with_hasher(s)
}

/// Relies on hashbag::HashBag::insert: one more occurrence of `v`; returns the
/// number of occurrences before. The total count is a `usize`, hence the bound.
#[verifier::external_body]
fn bag_insert(b: &mut HashBag<usize, RandomState>, v: usize) -> (r: usize)
    requires
        bag_items(*old(b)).len() < usize::MAX,
    ensures
        bag_items(*final(b)) == bag_items(*old(b)).insert(v),
        r == bag_items(*old(b)).count(v),
{
    b.insert(v)
}

/// Relies on hashbag::HashBag::remove: one occurrence of `v` fewer, if there was
/// one; returns the number of occurrences before.
#[verifier::external_body]
fn bag_remove(b: &mut HashBag<usize, RandomState>, v: usize) -> (r: usize)
    ensures
        bag_items(*final(b)) == bag_items(*old(b)).remove(v),
        r == bag_items(*old(b)).count(v),
{
    b.remove(&v)
}

/// Relies on hashbag::HashBag::contains: the number of occurrences of `v`.
#[verifier::external_body]
fn bag_contains(b: &HashBag<usize, RandomState>, v: usize) -> (r: usize)
    ensures
        r == bag_items(*b).count(v),
{
    b.contains(&v)
}

/// Relies on hashbag::HashBag::len: the number of occurrences of all items.
#[verifier::external_body]
fn bag_len(b: &HashBag<usize, RandomState>) -> (r: usize)
    ensures
        r == bag_items(*b).len(),
{
    b.len()
}

/// Fixed bytes charged for the handle of one stored row.
pub const ROW_HANDLE_BYTES: u64 = 8;

/// A row: an immutable tuple of value atoms.
pub struct Row(pub Vec<DataType>);

/// The bytes charged for the atoms of a tuple.
pub open spec fn content_bytes(r: Seq<Value>) -> nat
    decreases r.len(),
{
    if r.len() == 0 {
        0
    } else {
        content_bytes(r.drop_last()) + value_bytes(r.last())
    }
}

impl Row {
    pub open spec fn view(&self) -> Seq<Value> {
        values_of(self.0@)
    }

    pub fn from(v: Vec<DataType>) -> (r: Row)
        ensures
            r@ == values_of(v@),
    {
        Row(v)
    }

    pub fn as_ref(&self) -> (r: &[DataType])
        ensures
            values_of(r@) == self@,
    {
        self.0.as_slice()
    }

    /// Bytes of the row's handle alone.
    pub fn size_of(&self) -> (r: u64)
        ensures
            r == ROW_HANDLE_BYTES,
    {
        ROW_HANDLE_BYTES
    }

    /// Bytes of the row's contents, saturating at `u64::MAX`.
    pub fn deep_size_of(&self) -> (r: u64)
        ensures
            r as nat == if content_bytes(self@) <= u64::MAX as nat {
                content_bytes(self@)
            } else {
                u64::MAX as nat
            },
    {
        content_size(self.0.as_slice())
    }

    /// A row is never empty as a unit of storage.
    pub fn is_empty(&self) -> (r: bool)
        ensures
            !r,
    {
        false
    }
}

/// Bytes of the atoms of a tuple, saturating at `u64::MAX`.
pub fn content_size(v: &[DataType]) -> (r: u64)
    ensures
        r as nat == if content_bytes(values_of(v@)) <= u64::MAX as nat {
            content_bytes(values_of(v@))
        } else {
            u64::MAX as nat
        },
{
    let mut total: u64 = 0;
    let mut i: usize = 0;
    while i < v.len()
        invariant
            i <= v@.len(),
            total as nat == if content_bytes(values_of(v@).take(i as int)) <= u64::MAX as nat {
                content_bytes(values_of(v@).take(i as int))
            } else {
                u64::MAX as nat
            },
        decreases v@.len() - i,
    {
        let b: u64 = match &v[i] {
            DataType::Text(s) => {
                let n: usize = s.unicode_len();
                if (n as u64) < u64::MAX - VALUE_BYTES {
                    VALUE_BYTES + n as u64
                } else {
                    u64::MAX
                }
            },
            _ => VALUE_BYTES,
        };
        proof {
            let t = values_of(v@).take(i as int + 1);
            assert(t.drop_last() =~= values_of(v@).take(i as int));
            assert(t.last() == v@[i as int]@);
        }
        total = if total <= u64::MAX - b { total + b } else { u64::MAX };
        i = i + 1;
    }
    proof {
        assert(values_of(v@).take(v@.len() as int) =~= values_of(v@));
    }
    total
}

/// The bytes charged for a sequence of stored rows: the bytes of their atoms.
pub open spec fn rows_bytes(s: Seq<Vec<DataType>>) -> nat
    decreases s.len(),
{
    if s.len() == 0 {
        0
    } else {
        rows_bytes(s.drop_last()) + content_bytes(values_of(s.last()@))
    }
}

/// The bytes of the atoms of the given rows, saturating at `u64::MAX`.
pub fn bytes_of_rows(v: &Vec<Vec<DataType>>) -> (r: u64)
    ensures
        r as nat == if rows_bytes(v@) <= u64::MAX as nat {
            rows_bytes(v@)
        } else {
            u64::MAX as nat
        },
        v@.len() == 0 ==> r == 0,
{
    let mut total: u64 = 0;
    let mut i: usize = 0;
    while i < v.len()
        invariant
            i <= v@.len(),
            total as nat == if rows_bytes(v@.take(i as int)) <= u64::MAX as nat {
                rows_bytes(v@.take(i as int))
            } else {
                u64::MAX as nat
            },
            i == 0 ==> total == 0,
        decreases v@.len() - i,
    {
        let c = content_size(v[i].as_slice());
        let b: u64 = c;
        proof {
            let t = v@.take(i as int + 1);
            assert(t.drop_last() =~= v@.take(i as int));
            assert(t.last() == v@[i as int]);
        }
        total = if total <= u64::MAX - b { total + b } else { u64::MAX };
        i = i + 1;
    }
    proof {
        assert(v@.take(v@.len() as int) =~= v@);
    }
    total
}

/// A copy of a tuple held in a vector.
pub fn copy_vec(v: &Vec<DataType>) -> (r: Vec<DataType>)
    ensures
        values_of(r@) == values_of(v@),
{
    copy_values(v.as_slice())
}

/// The multiset of values of a sequence of tuples.
pub open spec fn rows_multiset(s: Seq<Vec<DataType>>) -> Multiset<Seq<Value>> {
    s.map_values(|v: Vec<DataType>| values_of(v@)).to_multiset()
}

/// Appending a tuple adds its values to the multiset of a sequence of tuples.
pub proof fn lemma_rows_multiset_push(s: Seq<Vec<DataType>>, v: Vec<DataType>)
    ensures
        rows_multiset(s.push(v)) == rows_multiset(s).insert(values_of(v@)),
{
    let f = |v: Vec<DataType>| values_of(v@);
    assert(s.push(v).map_values(f) =~= s.map_values(f).push(values_of(v@)));
    vstd::seq_lib::to_multiset_build(s.map_values(f), values_of(v@));
}

/// No tuples, no values.
pub proof fn lemma_rows_multiset_empty(s: Seq<Vec<DataType>>)
    requires
        s.len() == 0,
    ensures
        rows_multiset(s) =~= Multiset::empty(),
{
    let t = s.map_values(|v: Vec<DataType>| values_of(v@));
    vstd::seq_lib::to_multiset_len(t);
    vstd::multiset::lemma_multiset_empty_len(t.to_multiset());
}

/// Which rows a scan picks: all of them, or those whose key over `cols` is
/// (`want` true) or is not (`want` false) `key`.
pub open spec fn picked(r: Seq<Value>, all: bool, cols: Seq<usize>, key: Seq<Value>, want: bool) -> bool {
    all || ((project(r, cols) == key) == want)
}

/// A multiset of rows. Each distinct tuple is stored once in an arena; a hash
/// bag with a randomly seeded hasher counts the copies of each arena entry.
pub struct Rows {
    arena: Vec<Row>,
    bag: HashBag<usize, RandomState>,
    model: Ghost<Multiset<Seq<Value>>>,
}

impl Rows {
    pub closed spec fn view(&self) -> Multiset<Seq<Value>> {
        self.model@
    }

    pub closed spec fn wf(&self) -> bool {
        &&& forall|i: int, j: int|
            0 <= i < j < self.arena@.len() ==> self.arena@[i]@ != self.arena@[j]@
        &&& forall|v: usize| #[trigger]
            bag_items(self.bag).count(v) > 0 ==> v < self.arena@.len()
        &&& forall|i: usize|
            (i as int) < self.arena@.len() ==> bag_items(self.bag).count(i)
                == self.model@.count(#[trigger] self.arena@[i as int]@)
        &&& forall|r: Seq<Value>| #[trigger]
            self.model@.count(r) > 0 ==> exists|i: int|
                0 <= i < self.arena@.len() && self.arena@[i]@ == r
        &&& bag_items(self.bag).len() == self.model@.len()
    }

    pub fn new() -> (r: Rows)
        ensures
            r.wf(),
            r@ =~= Multiset::empty(),
    {
        Rows {
            arena: Vec::new(),
            bag: bag_with_hasher(random_state()),
            model: Ghost(Multiset::empty()),
        }
    }

    /// The arena position of a tuple, if it is stored there.
    fn find(&self, row: &[DataType]) -> (r: Option<usize>)
        ensures
            match r {
                Some(i) => i < self.arena@.len() && self.arena@[i as int]@ == values_of(row@),
                None => forall|i: int|
                    0 <= i < self.arena@.len() ==> self.arena@[i]@ != values_of(row@),
            },
    {
        let mut i: usize = 0;
        while i < self.arena.len()
            invariant
                i <= self.arena@.len(),
                forall|j: int| 0 <= j < i ==> self.arena@[j]@ != values_of(row@),
            decreases self.arena@.len() - i,
        {
            if same_values(self.arena[i].as_ref(), row) {
                return Some(i);
            }
            i = i + 1;
        }
        None
    }

    /// Adds one copy of `row`.
    pub fn insert(&mut self, row: Vec<DataType>)
        requires
            old(self).wf(),
            old(self)@.len() < usize::MAX,
        ensures
            final(self).wf(),
            final(self)@ == old(self)@.insert(values_of(row@)),
    {
        let ghost r = values_of(row@);
        let ghost idx: int;
        match self.find(row.as_slice()) {
            Some(i) => {
                bag_insert(&mut self.bag, i);
                proof {
                    idx = i as int;
                }
            },
            None => {
                let i = self.arena.len();
                proof {
                    assert(bag_items(self.bag).count(i) == 0);
                    if self.model@.count(r) > 0 {
                        let j = choose|j: int| 0 <= j < self.arena@.len() && self.arena@[j]@ == r;
                        assert(false);
                    }
                }
                self.arena.push(Row(row));
                bag_insert(&mut self.bag, i);
                proof {
                    idx = i as int;
                }
            },
        }
        self.model = Ghost(self.model@.insert(r));
        proof {
            assert(self.arena@[idx]@ == r);
            assert forall|k: usize| (k as int) < self.arena@.len() implies bag_items(
                self.bag,
            ).count(k) == self.model@.count(#[trigger] self.arena@[k as int]@) by {
                if k as int != idx {
                    assert(old(self).arena@[k as int]@ != r);
                    assert(old(self).arena@[k as int] == self.arena@[k as int]);
                }
            }
            assert forall|a: int, b: int|
                0 <= a < b < self.arena@.len() implies self.arena@[a]@ != self.arena@[b]@ by {
                if b == old(self).arena@.len() {
                    assert(old(self).arena@[a] == self.arena@[a]);
                } else {
                    assert(old(self).arena@[a] == self.arena@[a]);
                    assert(old(self).arena@[b] == self.arena@[b]);
                }
            }
            assert forall|r2: Seq<Value>| #[trigger] self.model@.count(r2) > 0 implies exists|k: int|
                0 <= k < self.arena@.len() && self.arena@[k]@ == r2 by {
                if r2 == r {
                    assert(self.arena@[idx]@ == r2);
                } else {
                    assert(old(self).model@.count(r2) > 0);
                    let j = choose|j: int|
                        0 <= j < old(self).arena@.len() && old(self).arena@[j]@ == r2;
                    assert(self.arena@[j]@ == r2);
                }
            }
        }
    }

    /// Drops the arena entry at `i`, which no copy refers to any more. The last
    /// entry moves into its place, and its copies are counted under `i`.
    fn release(&mut self, i: usize)
        requires
            old(self).wf(),
            (i as int) < old(self).arena@.len(),
            bag_items(old(self).bag).count(i) == 0,
        ensures
            final(self).wf(),
            final(self)@ == old(self)@,
            final(self).arena@.len() == old(self).arena@.len() - 1,
    {
        let last = self.arena.len() - 1;
        let ghost a0 = self.arena@;
        let ghost b0 = bag_items(self.bag);
        let total = bag_len(&self.bag);
        if i < last {
            let k = bag_contains(&self.bag, last);
            let mut n: usize = 0;
            while n < k
                invariant
                    n <= k,
                    i < last,
                    k == b0.count(last),
                    b0.count(i) == 0,
                    self.arena@ == a0,
                    forall|v: usize| #[trigger] bag_items(self.bag).count(v) == if v == last {
                        (k - n) as nat
                    } else if v == i {
                        n as nat
                    } else {
                        b0.count(v)
                    },
                    bag_items(self.bag).len() == b0.len(),
                    b0.len() == total,
                    self.model@ == old(self).model@,
                    b0 == bag_items(old(self).bag),
                    old(self).wf(),
                decreases k - n,
            {
                let ghost bb = bag_items(self.bag);
                bag_remove(&mut self.bag, last);
                proof {
                    assert(Multiset::singleton(last).subset_of(bb));
                }
                bag_insert(&mut self.bag, i);
                n = n + 1;
            }
        }
        self.arena.swap_remove(i);
        proof {
            let a1 = self.arena@;
            let b1 = bag_items(self.bag);
            assert(old(self).model@.count(a0[i as int]@) == 0);
            assert forall|p: int, q: int| 0 <= p < q < a1.len() implies a1[p]@ != a1[q]@ by {
                if p == i && i < last {
                    assert(a1[p] == a0[last as int]);
                    assert(a1[q] == a0[q]);
                } else if q == i && i < last {
                    assert(a1[q] == a0[last as int]);
                    assert(a1[p] == a0[p]);
                } else {
                    assert(a1[p] == a0[p]);
                    assert(a1[q] == a0[q]);
                }
            }
            assert forall|v: usize| #[trigger] b1.count(v) > 0 implies v < a1.len() by {
                if i < last {
                    if v != last && v != i {
                        assert(b0.count(v) > 0);
                    }
                } else {
                    assert(b0.count(v) > 0);
                }
            }
            assert forall|p: usize| (p as int) < a1.len() implies b1.count(p) == self.model@.count(#[trigger] a1[p as int]@) by {
                if p == i && i < last {
                    assert(a1[p as int] == a0[last as int]);
                } else {
                    assert(a1[p as int] == a0[p as int]);
                }
            }
            assert forall|r: Seq<Value>| #[trigger] self.model@.count(r) > 0 implies exists|p: int|
                0 <= p < a1.len() && a1[p]@ == r by {
                let j = choose|j: int| 0 <= j < a0.len() && a0[j]@ == r;
                assert(j != i);
                if j == last {
                    assert(a1[i as int] == a0[last as int]);
                } else {
                    assert(a1[j] == a0[j]);
                }
            }
        }
    }

    /// Removes one copy of `row`, if there is one; returns whether there was.
    pub fn remove(&mut self, row: &[DataType]) -> (r: bool)
        requires
            old(self).wf(),
        ensures
            final(self).wf(),
            final(self)@ == old(self)@.remove(values_of(row@)),
            final(self)@.len() <= old(self)@.len(),
            r == (old(self)@.count(values_of(row@)) > 0),
    {
        let ghost r = values_of(row@);
        match self.find(row) {
            Some(i) => {
                let ghost b0 = bag_items(self.bag);
                let c = bag_remove(&mut self.bag, i);
                let ghost a0 = self.arena@;
                proof {
                    let m0 = self.model@;
                    if c > 0 {
                        assert(Multiset::singleton(i).subset_of(b0));
                        assert(Multiset::singleton(r).subset_of(m0));
                    } else {
                        assert(b0.remove(i) =~= b0);
                        assert(m0.remove(r) =~= m0);
                    }
                }
                self.model = Ghost(self.model@.remove(r));
                proof {
                    assert forall|k: usize| (k as int) < self.arena@.len() implies bag_items(
                        self.bag,
                    ).count(k) == self.model@.count(#[trigger] self.arena@[k as int]@) by {
                        if k != i {
                            assert(old(self).arena@[k as int]@ != r);
                        }
                    }
                    assert forall|r2: Seq<Value>| #[trigger] self.model@.count(r2) > 0 implies exists|k: int|
                        0 <= k < self.arena@.len() && self.arena@[k]@ == r2 by {
                        assert(old(self).model@.count(r2) > 0);
                        let j = choose|j: int|
                            0 <= j < old(self).arena@.len() && old(self).arena@[j]@ == r2;
                        assert(self.arena@[j]@ == r2);
                    }
                }
                if c == 1 {
                    proof {
                        assert(bag_items(self.bag).count(i) == 0);
                    }
                    self.release(i);
                }
                c > 0
            },
            None => {
                proof {
                    if self.model@.count(r) > 0 {
                        let j = choose|j: int| 0 <= j < self.arena@.len() && self.arena@[j]@ == r;
                        assert(false);
                    }
                    assert(self.model@.remove(r) =~= self.model@);
                }
                false
            },
        }
    }

    /// The number of copies of `row`.
    pub fn count(&self, row: &[DataType]) -> (r: usize)
        requires
            self.wf(),
        ensures
            r == self@.count(values_of(row@)),
    {
        match self.find(row) {
            Some(i) => bag_contains(&self.bag, i),
            None => {
                proof {
                    let r = values_of(row@);
                    if self.model@.count(r) > 0 {
                        let j = choose|j: int| 0 <= j < self.arena@.len() && self.arena@[j]@ == r;
                        assert(false);
                    }
                }
                0
            },
        }
    }

    /// The number of rows, copies counted.
    pub fn len(&self) -> (r: usize)
        requires
            self.wf(),
        ensures
            r == self@.len(),
    {
        bag_len(&self.bag)
    }

    /// Builds the multiset of the given tuples.
    pub fn from_rows(v: Vec<Vec<DataType>>) -> (r: Rows)
        ensures
            r.wf(),
            r@ == rows_multiset(v@),
    {
        let mut r = Rows::new();
        let mut i: usize = 0;
        let n = v.len();
        proof {
            lemma_rows_multiset_empty(v@.take(0));
        }
        while i < n
            invariant
                n == v@.len(),
                i <= n,
                r.wf(),
                r@ == rows_multiset(v@.take(i as int)),
            decreases n - i,
        {
            proof {
                vstd::seq_lib::to_multiset_len(v@.take(i as int).map_values(|v: Vec<DataType>| values_of(v@)));
                lemma_rows_multiset_push(v@.take(i as int), v@[i as int]);
                assert(v@.take(i as int).push(v@[i as int]) =~= v@.take(i as int + 1));
            }
            r.insert(copy_vec(&v[i]));
            i = i + 1;
        }
        proof {
            assert(v@.take(n as int) =~= v@);
        }
        r
    }

    /// The rows that `picked` selects, each as many times as it is held.
    fn gather(&self, all: bool, cols: &[usize], key: &[DataType], want: bool) -> (out: Vec<Vec<DataType>>)
        requires
            self.wf(),
        ensures
            forall|r: Seq<Value>| #[trigger] rows_multiset(out@).count(r) == if picked(r, all, cols@, values_of(key@), want) {
                self@.count(r)
            } else {
                0
            },
    {
        let ghost k = values_of(key@);
        let mut out: Vec<Vec<DataType>> = Vec::new();
        let mut i: usize = 0;
        proof {
            lemma_rows_multiset_empty(out@);
        }
        while i < self.arena.len()
            invariant
                self.wf(),
                k == values_of(key@),
                i <= self.arena@.len(),
                forall|r: Seq<Value>| #[trigger] rows_multiset(out@).count(r) == if picked(r, all, cols@, k, want) && exists|j: int| 0 <= j < i && self.arena@[j]@ == r {
                    self@.count(r)
                } else {
                    0
                },
            decreases self.arena@.len() - i,
        {
            let row = self.arena[i].as_ref();
            let ghost x = self.arena@[i as int]@;
            let kv = key_of(row, cols);
            let eq = same_values(kv.as_slice(), key);
            let hit = all || (eq == want);

            if hit {
                let c = bag_contains(&self.bag, i);
                let ghost base = rows_multiset(out@);
                let mut n: usize = 0;
                while n < c
                    invariant
                        n <= c,
                        values_of(row@) == x,
                        hit == picked(x, all, cols@, k, want),
                        forall|r: Seq<Value>| #[trigger] rows_multiset(out@).count(r) == base.count(r) + if r == x { n as nat } else { 0 },
                    decreases c - n,
                {
                    let v = copy_values(row);
                    proof {
                        lemma_rows_multiset_push(out@, v);
                    }
                    out.push(v);
                    n = n + 1;
                }
            }
            proof {
                assert forall|r: Seq<Value>| #[trigger] rows_multiset(out@).count(r) == if picked(r, all, cols@, k, want) && exists|j: int| 0 <= j < i + 1 && self.arena@[j]@ == r {
                    self@.count(r)
                } else {
                    0
                } by {
                    if r == x {
                        assert(picked(r, all, cols@, k, want) == hit);
                        if exists|j: int| 0 <= j < i && self.arena@[j]@ == r {
                            let j = choose|j: int| 0 <= j < i && self.arena@[j]@ == r;
                            assert(false);
                        }
                    } else {
                        if exists|j: int| 0 <= j < i + 1 && self.arena@[j]@ == r {
                            let j = choose|j: int| 0 <= j < i + 1 && self.arena@[j]@ == r;
                            assert(j < i);
                        }
                    }
                }
            }
            i = i + 1;
        }
        proof {
            assert forall|r: Seq<Value>| #[trigger] rows_multiset(out@).count(r) == if picked(r, all, cols@, k, want) {
                self@.count(r)
            } else {
                0
            } by {
                if self@.count(r) > 0 {
                    let j = choose|j: int| 0 <= j < self.arena@.len() && self.arena@[j]@ == r;
                }
            }
        }
        out
    }

    /// All rows, each as many times as it is held.
    pub fn to_vec(&self) -> (out: Vec<Vec<DataType>>)
        requires
            self.wf(),
        ensures
            rows_multiset(out@) =~= self@,
    {
        let none: Vec<usize> = Vec::new();
        let nokey: Vec<DataType> = Vec::new();
        self.gather(true, none.as_slice(), nokey.as_slice(), true)
    }

    /// The rows whose key over `cols` is `key`, each as many times as it is held.
    pub fn select(&self, cols: &[usize], key: &[DataType]) -> (out: Vec<Vec<DataType>>)
        requires
            self.wf(),
        ensures
            forall|r: Seq<Value>| #[trigger] rows_multiset(out@).count(r) == if project(r, cols@) == values_of(key@) {
                self@.count(r)
            } else {
                0
            },
    {
        self.gather(false, cols, key, true)
    }

    /// Removes every row whose key over `cols` is `key`, and returns them.
    pub fn remove_key(&mut self, cols: &[usize], key: &[DataType]) -> (removed: Vec<Vec<DataType>>)
        requires
            old(self).wf(),
        ensures
            final(self).wf(),
            forall|r: Seq<Value>| #[trigger] final(self)@.count(r) == if project(r, cols@) == values_of(key@) {
                0
            } else {
                old(self)@.count(r)
            },
            forall|r: Seq<Value>| #[trigger] rows_multiset(removed@).count(r) == if project(r, cols@) == values_of(key@) {
                old(self)@.count(r)
            } else {
                0
            },
    {
        let removed = self.gather(false, cols, key, true);
        let rest = self.gather(false, cols, key, false);
        *self = Rows::from_rows(rest);
        removed
    }

    /// Removes every row.
    pub fn clear(&mut self)
        ensures
            final(self).wf(),
            final(self)@ =~= Multiset::empty(),
    {
        *self = Rows::new();
    }

    pub fn is_empty(&self) -> (r: bool)
        requires
            self.wf(),
        ensures
            r == (self@.len() == 0),
    {
        bag_len(&self.bag) == 0
    }
}

} // verus!
