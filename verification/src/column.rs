//! A column: a named, typed, fixed-length sequence of scalar values,
//! built once through a builder and immutable afterwards.
use vstd::prelude::*;
use crate::value::{Value, ValueKind, SpecValue, kind_of};
use crate::table::TableError;

verus! {

/// A single named, typed column. Every value it holds has the column's kind.
#[derive(Debug)]
pub struct Column {
    pub name: String,
    pub kind: ValueKind,
    pub values: Vec<Value>,
}

impl Column {
    /// The column's name, as a character sequence.
    pub open spec fn spec_name(self) -> Seq<char> {
        self.name@
    }

    /// The column's declared kind.
    pub open spec fn spec_kind(self) -> ValueKind {
        self.kind
    }

    /// The mathematical contents of the column, in row order.
    pub open spec fn data(self) -> Seq<SpecValue> {
        self.values@.map_values(|v: Value| v@)
    }

    /// Well-formed: every value belongs to the declared kind.
    pub open spec fn wf(self) -> bool {
        forall|i: int| 0 <= i < self.data().len() ==> kind_of(#[trigger] self.data()[i]) == self.kind
    }

    pub fn name(&self) -> (n: &String)
        ensures
            n@ == self.spec_name(),
    {
        &self.name
    }

    pub fn kind(&self) -> (k: ValueKind)
        ensures
            k == self.spec_kind(),
    {
        self.kind
    }

    pub fn len(&self) -> (n: usize)
        ensures
            n == self.data().len(),
    {
        self.values.len()
    }

    /// The value at row `i`.
    pub fn get(&self, i: usize) -> (v: &Value)
        requires
            i < self.data().len(),
        ensures
            v@ == self.data()[i as int],
    {
        &self.values[i]
    }

    /// Builds a column from a ready vector of values, rejecting any value
    /// whose kind differs from the declared one.
    pub fn from_values(name: String, kind: ValueKind, values: Vec<Value>) -> (r: Result<
        Column,
        TableError,
    >)
        ensures
            r is Ok <==> (forall|i: int|
                0 <= i < values@.len() ==> kind_of(#[trigger] values@[i]@) == kind),
            r matches Ok(c) ==> c.wf() && c.spec_name() == name@ && c.spec_kind() == kind
                && c.data() == values@.map_values(|v: Value| v@),
    {
        let mut i: usize = 0;
        while i < values.len()
            invariant
                i <= values@.len(),
                forall|j: int| 0 <= j < i ==> kind_of(#[trigger] values@[j]@) == kind,
            decreases values@.len() - i,
        {
            if values[i].kind() != kind {
                return Err(TableError::TypeMismatch);
            }
            i = i + 1;
        }
        Ok(Column { name, kind, values })
    }
}

/// Builds a column by appending values of the declared kind in row order.
pub struct ColumnBuilder {
    pub name: String,
    pub kind: ValueKind,
    pub values: Vec<Value>,
}

impl ColumnBuilder {
    pub open spec fn spec_name(self) -> Seq<char> {
        self.name@
    }

    pub open spec fn spec_kind(self) -> ValueKind {
        self.kind
    }

    pub open spec fn data(self) -> Seq<SpecValue> {
        self.values@.map_values(|v: Value| v@)
    }

    /// Well-formed: every appended value belongs to the declared kind.
    pub open spec fn wf(self) -> bool {
        forall|i: int| 0 <= i < self.data().len() ==> kind_of(#[trigger] self.data()[i]) == self.kind
    }

    pub fn new(name: String, kind: ValueKind) -> (b: ColumnBuilder)
        ensures
            b.wf(),
            b.spec_name() == name@,
            b.spec_kind() == kind,
            b.data() == Seq::<SpecValue>::empty(),
    {
        let b = ColumnBuilder { name, kind, values: Vec::new() };
        proof {
            assert(b.data() =~= Seq::<SpecValue>::empty());
        }
        b
    }

    /// Appends one value; the value must belong to the column's kind.
    pub fn append(&mut self, v: Value)
        requires
            old(self).wf(),
            kind_of(v@) == old(self).spec_kind(),
        ensures
            final(self).wf(),
            final(self).spec_name() == old(self).spec_name(),
            final(self).spec_kind() == old(self).spec_kind(),
            final(self).data() == old(self).data().push(v@),
    {
        let ghost prev = self.values@;
        self.values.push(v);
        proof {
            assert(self.data() =~= prev.map_values(|x: Value| x@).push(self.values@[prev.len() as int]@));
        }
    }

    /// Freezes the builder into an immutable column.
    pub fn finish(self) -> (c: Column)
        requires
            self.wf(),
        ensures
            c.wf(),
            c.spec_name() == self.spec_name(),
            c.spec_kind() == self.spec_kind(),
            c.data() == self.data(),
    {
        Column { name: self.name, kind: self.kind, values: self.values }
    }
}

} // verus!
