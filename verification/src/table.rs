//! A table: an ordered set of equal-length columns with unique names, and
//! the error taxonomy shared by all operations over it.
use vstd::prelude::*;
use crate::value::{Value, ValueKind, SpecValue};
use crate::column::Column;

verus! {

/// Why an operation failed. Every failure is reported before any partial
/// output is produced; inputs are never changed.
#[derive(Clone, Copy, PartialEq, Eq, Structural, Debug)]
pub enum TableError {
    /// A referenced column name is absent from the schema.
    ColumnNotFound,
    /// A column's kind does not fit the operation or the declared kind.
    TypeMismatch,
    /// Two columns were given the same name.
    DuplicateColumnName,
    /// Columns of differing lengths were combined into one table.
    LengthMismatch,
    /// A sort was requested with no keys.
    EmptySortKeys,
    /// A running sum left the representable integer range.
    SumOverflow,
    /// A slice's offset plus length exceeds the column's length.
    SliceOutOfRange,
    /// Two output column names coincide, making the schema ambiguous.
    AmbiguousColumnName,
}

/// An ordered set of equal-length, uniquely named columns.
#[derive(Debug)]
pub struct Table {
    pub columns: Vec<Column>,
}

impl Table {
    /// Number of columns.
    pub open spec fn col_count(self) -> int {
        self.columns@.len() as int
    }

    /// Contents of column `c`, in row order.
    pub open spec fn col_data(self, c: int) -> Seq<SpecValue> {
        self.columns@[c].data()
    }

    /// Name of column `c`.
    pub open spec fn col_name(self, c: int) -> Seq<char> {
        self.columns@[c].spec_name()
    }

    /// Kind of column `c`.
    pub open spec fn col_kind(self, c: int) -> ValueKind {
        self.columns@[c].spec_kind()
    }

    /// Number of rows, shared by every column.
    pub open spec fn row_count(self) -> int {
        if self.col_count() == 0 {
            0
        } else {
            self.col_data(0).len() as int
        }
    }

    /// Well-formed: columns are internally consistent, share one length,
    /// and carry pairwise distinct names.
    pub open spec fn wf(self) -> bool {
        &&& forall|c: int| 0 <= c < self.col_count() ==> (#[trigger] self.columns@[c]).wf()
        &&& forall|c: int|
            0 <= c < self.col_count() ==> (#[trigger] self.col_data(c)).len() == self.row_count()
        &&& forall|c1: int, c2: int|
            0 <= c1 < c2 < self.col_count() ==> #[trigger] self.col_name(c1) != #[trigger] self.col_name(c2)
    }

    /// Two tables have the same schema: same column names and kinds, in order.
    pub open spec fn same_schema(self, other: Table) -> bool {
        &&& self.col_count() == other.col_count()
        &&& (forall|c: int|
            0 <= c < self.col_count() ==> #[trigger] self.col_name(c) == other.col_name(c))
        &&& (forall|c: int|
            0 <= c < self.col_count() ==> #[trigger] self.col_kind(c) == other.col_kind(c))
    }

    /// The values of row `i` across all columns, in column order.
    pub open spec fn spec_row(self, i: int) -> Seq<SpecValue> {
        Seq::new(self.col_count() as nat, |c: int| self.col_data(c)[i])
    }

    /// All rows, in row order.
    pub open spec fn rows(self) -> Seq<Seq<SpecValue>> {
        Seq::new(self.row_count() as nat, |i: int| self.spec_row(i))
    }

    /// Whether some column carries this name.
    pub open spec fn has_col(self, name: Seq<char>) -> bool {
        exists|c: int| 0 <= c < self.col_count() && self.col_name(c) == name
    }

    /// The index of the column carrying this name; under `wf` it is unique.
    pub open spec fn col_id(self, name: Seq<char>) -> int {
        choose|c: int| 0 <= c < self.col_count() && self.col_name(c) == name
    }

    /// In a well-formed table, a column index with a given name is the
    /// unique index `col_id` denotes.
    pub proof fn lemma_col_id(self, name: Seq<char>, c: int)
        requires
            self.wf(),
            0 <= c < self.col_count(),
            self.col_name(c) == name,
        ensures
            self.has_col(name),
            self.col_id(name) == c,
    {
        assert(self.has_col(name));
        let w = self.col_id(name);
        if w != c {
            if w < c {
                assert(self.col_name(w) != self.col_name(c));
            } else {
                assert(self.col_name(c) != self.col_name(w));
            }
        }
    }

    /// Combines ready columns into a table, rejecting differing lengths and
    /// duplicate names.
    pub fn new(columns: Vec<Column>) -> (r: Result<Table, TableError>)
        requires
            forall|c: int| 0 <= c < columns@.len() ==> (#[trigger] columns@[c]).wf(),
        ensures
            r matches Ok(t) ==> t.wf() && t.columns@ == columns@,
            r matches Err(e) ==> (e == TableError::LengthMismatch || e
                == TableError::DuplicateColumnName),
            (r matches Err(e) && e == TableError::LengthMismatch) <==> (exists|c: int|
                0 < c < columns@.len() && (#[trigger] columns@[c]).data().len()
                    != columns@[0].data().len()),
            (r matches Err(e) && e == TableError::DuplicateColumnName) <==> ((forall|c: int|
                0 < c < columns@.len() ==> (#[trigger] columns@[c]).data().len()
                    == columns@[0].data().len()) && (exists|c1: int, c2: int|
                0 <= c1 < c2 < columns@.len() && (#[trigger] columns@[c1].spec_name())
                    == (#[trigger] columns@[c2].spec_name()))),
    {
        let n = columns.len();
        let mut c: usize = 1;
        while c < n
            invariant
                n == columns@.len(),
                1 <= c || n == 0,
                forall|j: int|
                    0 < j < c ==> (#[trigger] columns@[j]).data().len() == columns@[0].data().len(),
            decreases n - c,
        {
            if columns[c].len() != columns[0].len() {
                return Err(TableError::LengthMismatch);
            }
            c = c + 1;
        }
        let mut c1: usize = 0;
        while c1 < n
            invariant
                n == columns@.len(),
                forall|j: int|
                    0 < j < n ==> (#[trigger] columns@[j]).data().len() == columns@[0].data().len(),
                forall|i: int, j: int|
                    0 <= i < j < n && i < c1 ==> (#[trigger] columns@[i].spec_name())
                        != (#[trigger] columns@[j].spec_name()),
            decreases n - c1,
        {
            let mut c2: usize = c1 + 1;
            while c2 < n
                invariant
                    n == columns@.len(),
                    c1 < c2,
                    forall|j: int|
                        0 < j < n ==> (#[trigger] columns@[j]).data().len()
                            == columns@[0].data().len(),
                    forall|j: int|
                        c1 < j < c2 ==> (#[trigger] columns@[j].spec_name())
                            != columns@[c1 as int].spec_name(),
                decreases n - c2,
            {
                if *columns[c1].name() == *columns[c2].name() {
                    proof {
                        assert(0 <= c1 < c2 < columns@.len() && (columns@[c1 as int].spec_name())
                            == (columns@[c2 as int].spec_name()));
                    }
                    return Err(TableError::DuplicateColumnName);
                }
                c2 = c2 + 1;
            }
            c1 = c1 + 1;
        }
        Ok(Table { columns })
    }

    pub fn num_columns(&self) -> (n: usize)
        ensures
            n == self.col_count(),
    {
        self.columns.len()
    }

    pub fn num_rows(&self) -> (n: usize)
        requires
            self.wf(),
        ensures
            n == self.row_count(),
    {
        if self.columns.len() == 0 {
            0
        } else {
            self.columns[0].len()
        }
    }

    /// Borrows column `c`.
    pub fn column(&self, c: usize) -> (col: &Column)
        requires
            c < self.col_count(),
        ensures
            col.data() == self.col_data(c as int),
            col.spec_name() == self.col_name(c as int),
            col.spec_kind() == self.col_kind(c as int),
            col.wf() == self.columns@[c as int].wf(),
    {
        &self.columns[c]
    }

    /// Finds the index of the column with the given name.
    pub fn find_column(&self, name: &String) -> (r: Option<usize>)
        requires
            self.wf(),
        ensures
            r is Some <==> self.has_col(name@),
            r matches Some(c) ==> c < self.col_count() && self.col_name(c as int) == name@
                && self.col_id(name@) == c as int,
    {
        let n = self.columns.len();
        let mut c: usize = 0;
        while c < n
            invariant
                self.wf(),
                n == self.col_count(),
                c <= n,
                forall|j: int| 0 <= j < c ==> #[trigger] self.col_name(j) != name@,
            decreases n - c,
        {
            if *self.columns[c].name() == *name {
                proof {
                    self.lemma_col_id(name@, c as int);
                }
                return Some(c);
            }
            c = c + 1;
        }
        None
    }

    /// Materializes a new table holding the rows at the given positions, in
    /// the given order; the schema is kept. Positions may repeat.
    pub fn take_rows(&self, idx: &Vec<usize>) -> (out: Table)
        requires
            self.wf(),
            forall|p: int| 0 <= p < idx@.len() ==> (#[trigger] idx@[p]) < self.row_count(),
        ensures
            out.wf(),
            self.same_schema(out),
            out.row_count() == (if self.col_count() == 0 { 0int } else { idx@.len() as int }),
            forall|c: int, p: int|
                0 <= c < self.col_count() && 0 <= p < idx@.len() ==> #[trigger] out.col_data(c)[p]
                    == self.col_data(c)[idx@[p] as int],
    {
        let ncols = self.columns.len();
        let mut cols: Vec<Column> = Vec::new();
        let mut c: usize = 0;
        while c < ncols
            invariant
                self.wf(),
                forall|p: int| 0 <= p < idx@.len() ==> (#[trigger] idx@[p]) < self.row_count(),
                ncols == self.col_count(),
                c == cols@.len(),
                c <= ncols,
                forall|j: int|
                    0 <= j < c ==> (#[trigger] cols@[j]).wf() && cols@[j].spec_name()
                        == self.col_name(j) && cols@[j].spec_kind() == self.col_kind(j)
                        && cols@[j].data().len() == idx@.len(),
                forall|j: int, p: int|
                    0 <= j < c && 0 <= p < idx@.len() ==> (#[trigger] cols@[j].data()[p])
                        == self.col_data(j)[idx@[p] as int],
            decreases ncols - c,
        {
            let src = &self.columns[c];
            let mut vals: Vec<Value> = Vec::new();
            let mut p: usize = 0;
            while p < idx.len()
                invariant
                    self.wf(),
                    forall|q: int| 0 <= q < idx@.len() ==> (#[trigger] idx@[q]) < self.row_count(),
                    c < ncols,
                    ncols == self.col_count(),
                    p == vals@.len(),
                    p <= idx@.len(),
                    forall|q: int|
                        0 <= q < p ==> (#[trigger] vals@[q]@) == self.col_data(c as int)[idx@[q] as int],
                decreases idx@.len() - p,
            {
                let v = self.value_at(c, idx[p]);
                vals.push(v.clone());
                p = p + 1;
            }
            let col = Column { name: src.name.clone(), kind: src.kind, values: vals };
            proof {
                assert(self.col_data(c as int).len() == self.row_count());
                assert(forall|q: int|
                    0 <= q < col.data().len() ==> (#[trigger] col.data()[q])
                        == self.col_data(c as int)[idx@[q] as int]);
            }
            cols.push(col);
            c = c + 1;
        }
        let out = Table { columns: cols };
        proof {
            assert forall|c1: int, c2: int|
                0 <= c1 < c2 < out.col_count() implies #[trigger] out.col_name(c1)
                != #[trigger] out.col_name(c2) by {
                assert(self.col_name(c1) != self.col_name(c2));
            }
        }
        out
    }

    /// The value at column `c`, row `i`.
    pub fn value_at(&self, c: usize, i: usize) -> (v: &Value)
        requires
            self.wf(),
            c < self.col_count(),
            i < self.row_count(),
        ensures
            v@ == self.col_data(c as int)[i as int],
    {
        proof {
            assert(self.col_data(c as int).len() == self.row_count());
        }
        self.columns[c].get(i)
    }
}

} // verus!
