use vstd::prelude::*;

verus! {

/// The mathematical meaning of a value atom.
pub enum Value {
    Null,
    Int(int),
    Text(Seq<char>),
}

/// A value atom stored in a row.
#[derive(Debug, Clone, PartialEq, Eq)]
pub enum DataType {
    Null,
    Int(i64),
    Text(String),
}

/// Bytes charged for one value atom, besides the characters of a text.
pub const VALUE_BYTES: u64 = 16;

impl DataType {
    pub open spec fn view(&self) -> Value {
        match self {
            DataType::Null => Value::Null,
            DataType::Int(i) => Value::Int(*i as int),
            DataType::Text(s) => Value::Text(s@),
        }
    }

    /// Whether two atoms hold the same value.
    pub fn same(&self, other: &DataType) -> (r: bool)
        ensures
            r == (self@ == other@),
    {
        match (self, other) {
            (DataType::Null, DataType::Null) => true,
            (DataType::Int(a), DataType::Int(b)) => *a == *b,
            (DataType::Text(a), DataType::Text(b)) => a.eq(b),
            _ => false,
        }
    }

    /// A copy of this atom.
    pub fn duplicate(&self) -> (r: DataType)
        ensures
            r@ == self@,
    {
        match self {
            DataType::Null => DataType::Null,
            DataType::Int(i) => DataType::Int(*i),
            DataType::Text(s) => DataType::Text(s.clone()),
        }
    }
}

/// The meaning of a tuple of atoms.
pub open spec fn values_of(v: Seq<DataType>) -> Seq<Value> {
    v.map_values(|d: DataType| d@)
}

/// Whether two tuples hold the same values, position by position.
pub fn same_values(a: &[DataType], b: &[DataType]) -> (r: bool)
    ensures
        r == (values_of(a@) == values_of(b@)),
{
    if a.len() != b.len() {
        proof {
            assert(values_of(a@).len() != values_of(b@).len());
        }
        return false;
    }
    let mut i: usize = 0;
    while i < a.len()
        invariant
            a@.len() == b@.len(),
            i <= a@.len(),
            forall|j: int| 0 <= j < i ==> a@[j]@ == b@[j]@,
        decreases a@.len() - i,
    {
        if !a[i].same(&b[i]) {
            proof {
                assert(values_of(a@)[i as int] != values_of(b@)[i as int]);
            }
            return false;
        }
        i = i + 1;
    }
    proof {
        assert(values_of(a@) =~= values_of(b@));
    }
    true
}

/// A copy of a tuple.
pub fn copy_values(a: &[DataType]) -> (r: Vec<DataType>)
    ensures
        values_of(r@) == values_of(a@),
{
    let mut r: Vec<DataType> = Vec::new();
    let mut i: usize = 0;
    while i < a.len()
        invariant
            i <= a@.len(),
            r@.len() == i,
            forall|j: int| 0 <= j < i ==> r@[j]@ == a@[j]@,
        decreases a@.len() - i,
    {
        r.push(a[i].duplicate());
        i = i + 1;
    }
    proof {
        assert(values_of(r@) =~= values_of(a@));
    }
    r
}

/// The key of a tuple over the given columns; a column past the end of the
/// tuple reads as `Null`.
pub open spec fn project(r: Seq<Value>, cols: Seq<usize>) -> Seq<Value> {
    Seq::new(
        cols.len(),
        |i: int|
            if (cols[i] as int) < r.len() {
                r[cols[i] as int]
            } else {
                Value::Null
            },
    )
}

/// Extracts the key of `row` over `cols`.
pub fn key_of(row: &[DataType], cols: &[usize]) -> (r: Vec<DataType>)
    ensures
        values_of(r@) == project(values_of(row@), cols@),
{
    let mut r: Vec<DataType> = Vec::new();
    let mut i: usize = 0;
    while i < cols.len()
        invariant
            i <= cols@.len(),
            r@.len() == i,
            forall|j: int|
                0 <= j < i ==> r@[j]@ == project(values_of(row@), cols@)[j],
        decreases cols@.len() - i,
    {
        let c = cols[i];
        if c < row.len() {
            r.push(row[c].duplicate());
        } else {
            r.push(DataType::Null);
        }
        i = i + 1;
    }
    proof {
        assert(values_of(r@) =~= project(values_of(row@), cols@));
    }
    r
}

/// Bytes charged for one atom.
pub open spec fn value_bytes(v: Value) -> nat {
    match v {
        Value::Text(s) => VALUE_BYTES as nat + s.len(),
        _ => VALUE_BYTES as nat,
    }
}

} // verus!
