use vstd::prelude::*;
use vstd::multiset::Multiset;
use crate::value::{DataType, Value};
use crate::rows::{Rows, rows_multiset};

verus! {

broadcast use vstd::seq_lib::group_to_multiset_ensures;

/// The rows that a lookup matched: a view into live storage, or an owned copy.
pub enum RecordResult<'a> {
    Borrowed(&'a Rows),
    Owned(Vec<Vec<DataType>>),
}

impl<'a> RecordResult<'a> {
    pub open spec fn wf(&self) -> bool {
        match self {
            RecordResult::Borrowed(rs) => rs.wf(),
            RecordResult::Owned(_) => true,
        }
    }

    /// The matched rows, copies counted.
    pub open spec fn view(&self) -> Multiset<Seq<Value>> {
        match self {
            RecordResult::Borrowed(rs) => rs@,
            RecordResult::Owned(v) => rows_multiset(v@),
        }
    }

    /// The number of matched rows, copies counted.
    pub fn len(&self) -> (r: usize)
        requires
            self.wf(),
        ensures
            r == self@.len(),
    {
        match self {
            RecordResult::Borrowed(rs) => rs.len(),
            RecordResult::Owned(v) => {
                proof {
                    vstd::seq_lib::to_multiset_len(v@.map_values(|v: Vec<DataType>| crate::value::values_of(v@)));
                }
                v.len()
            },
        }
    }

    pub fn is_empty(&self) -> (r: bool)
        requires
            self.wf(),
        ensures
            r == (self@.len() == 0),
    {
        self.len() == 0
    }

    /// The matched rows as owned tuples, whichever the source.
    pub fn into_vec(self) -> (r: Vec<Vec<DataType>>)
        requires
            self.wf(),
        ensures
            rows_multiset(r@) == self@,
            self matches RecordResult::Owned(v) ==> r@ == v@,
    {
        match self {
            RecordResult::Borrowed(rs) => rs.to_vec(),
            RecordResult::Owned(v) => v,
        }
    }
}

/// The outcome of a lookup: the matched rows, or `Missing` where the key is a
/// hole of a partial index.
pub enum LookupResult<'a> {
    Found(RecordResult<'a>),
    Missing,
}

} // verus!
