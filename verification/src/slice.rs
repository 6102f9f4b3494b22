//! Zero-copy row-range views into a column: an offset and a length over the
//! backing column's storage, constructed in constant time and read exactly
//! like the materialized sub-range.
use vstd::prelude::*;
use crate::value::{Value, ValueKind, SpecValue};
use crate::column::Column;
use crate::table::TableError;

verus! {

/// A read-only view of the rows `[offset, offset + length)` of a column,
/// borrowing the backing storage instead of copying it.
#[derive(Debug)]
pub struct ColumnSlice<'a> {
    pub col: &'a Column,
    pub offset: usize,
    pub length: usize,
}

impl<'a> ColumnSlice<'a> {
    /// Well-formed: the viewed range lies inside the backing column.
    pub open spec fn wf(self) -> bool {
        self.offset + self.length <= self.col.data().len()
    }

    /// The viewed contents: the backing column's sub-range.
    pub open spec fn data(self) -> Seq<SpecValue> {
        self.col.data().subrange(self.offset as int, self.offset + self.length)
    }

    pub fn len(&self) -> (n: usize)
        requires
            self.wf(),
        ensures
            n == self.data().len(),
    {
        self.length
    }

    pub fn kind(&self) -> (k: ValueKind)
        ensures
            k == self.col.spec_kind(),
    {
        self.col.kind
    }

    /// The element at position `i` of the view: exactly the backing
    /// column's element at `offset + i`.
    pub fn get(&self, i: usize) -> (v: &Value)
        requires
            self.wf(),
            i < self.length,
        ensures
            v@ == self.data()[i as int],
            v@ == self.col.data()[self.offset + i as int],
    {
        let n: usize = self.col.len();
        proof {
            assert(self.offset + self.length <= n);
        }
        self.col.get(self.offset + i)
    }

    /// Copies the viewed range out into an owned column of the same name
    /// and kind, with contents equal to the view's.
    pub fn materialize(&self) -> (c: Column)
        requires
            self.wf(),
            self.col.wf(),
        ensures
            c.wf(),
            c.spec_name() == self.col.spec_name(),
            c.spec_kind() == self.col.spec_kind(),
            c.data() == self.data(),
    {
        let mut values: Vec<Value> = Vec::new();
        let mut i: usize = 0;
        while i < self.length
            invariant
                self.wf(),
                self.col.wf(),
                i <= self.length,
                values@.len() == i,
                forall|q: int| 0 <= q < i ==> (#[trigger] values@[q])@ == self.data()[q],
            decreases self.length - i,
        {
            values.push(self.get(i).clone());
            i = i + 1;
        }
        let c = Column { name: self.col.name.clone(), kind: self.col.kind, values };
        proof {
            assert(c.data() =~= self.data());
            assert forall|q: int| 0 <= q < c.data().len() implies crate::value::kind_of(
                #[trigger] c.data()[q],
            ) == c.kind by {
                assert(c.data()[q] == self.col.data()[self.offset + q]);
            }
        }
        c
    }
}

/// Creates a zero-copy view of rows `[offset, offset + length)` of the
/// column, rejecting a range that leaves the column.
pub fn slice<'a>(col: &'a Column, offset: usize, length: usize) -> (r: Result<
    ColumnSlice<'a>,
    TableError,
>)
    ensures
        r is Ok <==> offset + length <= col.data().len(),
        r matches Err(e) ==> e == TableError::SliceOutOfRange,
        r matches Ok(s) ==> s.wf() && s.col == col && s.offset == offset && s.length == length,
{
    let n = col.len();
    if offset > n {
        return Err(TableError::SliceOutOfRange);
    }
    if length > n - offset {
        return Err(TableError::SliceOutOfRange);
    }
    Ok(ColumnSlice { col, offset, length })
}

} // verus!
