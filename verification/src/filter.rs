//! Row filtering: a predicate is a conjunction of per-column comparisons,
//! evaluated once per row in row order; surviving rows are materialized into
//! a new table, keeping their original relative order and the schema.
use vstd::prelude::*;
use crate::value::{Value, SpecValue, val_lt, value_cmp, Cmp, kind_of};
use crate::table::{Table, TableError};

verus! {

/// A comparison operator of a filter condition.
#[derive(Clone, Copy, PartialEq, Eq, Structural, Debug)]
pub enum CmpOp {
    Eq,
    Ne,
    Lt,
    Le,
    Gt,
    Ge,
}

/// One conjunct of a filter predicate: the named column's value at a row,
/// compared against a fixed value.
pub struct Condition {
    pub column: String,
    pub op: CmpOp,
    pub value: Value,
}

/// Whether a comparison holds between a row's value `v` and the condition's
/// fixed value `w`, under the total value order.
pub open spec fn op_holds(op: CmpOp, v: SpecValue, w: SpecValue) -> bool {
    match op {
        CmpOp::Eq => v == w,
        CmpOp::Ne => v != w,
        CmpOp::Lt => val_lt(v, w),
        CmpOp::Le => !val_lt(w, v),
        CmpOp::Gt => val_lt(w, v),
        CmpOp::Ge => !val_lt(v, w),
    }
}

/// Whether one condition holds at row `i` of the table.
pub open spec fn cond_holds(t: Table, c: Condition, i: int) -> bool {
    op_holds(c.op, t.col_data(t.col_id(c.column@))[i], c.value@)
}

/// Whether every condition holds at row `i`.
pub open spec fn row_matches(t: Table, conds: Seq<Condition>, i: int) -> bool {
    forall|k: int| 0 <= k < conds.len() ==> cond_holds(t, #[trigger] conds[k], i)
}

/// Every condition names a present column of the kind of its fixed value.
pub open spec fn conds_wf(t: Table, conds: Seq<Condition>) -> bool {
    forall|k: int|
        0 <= k < conds.len() ==> t.has_col((#[trigger] conds[k]).column@) && t.col_kind(
            t.col_id(conds[k].column@),
        ) == kind_of(conds[k].value@)
}

/// The row positions among `[0, n)` surviving the predicate, ascending.
pub open spec fn selected_upto(t: Table, conds: Seq<Condition>, n: int) -> Seq<int>
    decreases n,
{
    if n <= 0 {
        Seq::empty()
    } else if row_matches(t, conds, n - 1) {
        selected_upto(t, conds, n - 1).push(n - 1)
    } else {
        selected_upto(t, conds, n - 1)
    }
}

/// The row positions surviving the predicate, in ascending row order.
pub open spec fn selected_rows(t: Table, conds: Seq<Condition>) -> Seq<int> {
    selected_upto(t, conds, t.row_count())
}

/// What the selection is: never longer than the scanned range, within
/// range, strictly ascending, matching rows only, and complete.
pub proof fn lemma_selected_upto_props(t: Table, conds: Seq<Condition>, n: int)
    ensures
        selected_upto(t, conds, n).len() <= (if n >= 0 { n } else { 0 }),
        forall|p: int|
            0 <= p < selected_upto(t, conds, n).len() ==> 0 <= #[trigger] selected_upto(
                t,
                conds,
                n,
            )[p] < n,
        forall|p: int, q: int|
            0 <= p < q < selected_upto(t, conds, n).len() ==> selected_upto(t, conds, n)[p]
                < selected_upto(t, conds, n)[q],
        forall|p: int|
            0 <= p < selected_upto(t, conds, n).len() ==> row_matches(
                t,
                conds,
                #[trigger] selected_upto(t, conds, n)[p],
            ),
        forall|i: int|
            0 <= i < n && row_matches(t, conds, i) ==> selected_upto(t, conds, n).contains(i),
    decreases n,
{
    if n > 0 {
        lemma_selected_upto_props(t, conds, n - 1);
        let prev = selected_upto(t, conds, n - 1);
        let cur = selected_upto(t, conds, n);
        assert forall|i: int| 0 <= i < n && row_matches(t, conds, i) implies cur.contains(i) by {
            if i < n - 1 {
                let p = choose|p: int| 0 <= p < prev.len() && prev[p] == i;
                assert(cur[p] == i);
            } else {
                assert(cur[cur.len() - 1] == i);
            }
        }
    }
}

fn eval_cond(t: &Table, cond: &Condition, c: usize, i: usize) -> (b: bool)
    requires
        t.wf(),
        c < t.col_count(),
        t.col_name(c as int) == cond.column@,
        i < t.row_count(),
    ensures
        b == cond_holds(*t, *cond, i as int),
{
    proof {
        t.lemma_col_id(cond.column@, c as int);
    }
    let v = t.value_at(c, i);
    let cmp = value_cmp(v, &cond.value);
    match cond.op {
        CmpOp::Eq => cmp == Cmp::Eq,
        CmpOp::Ne => cmp != Cmp::Eq,
        CmpOp::Lt => cmp == Cmp::Lt,
        CmpOp::Le => cmp != Cmp::Gt,
        CmpOp::Gt => cmp == Cmp::Gt,
        CmpOp::Ge => cmp != Cmp::Lt,
    }
}

/// Filters the table's rows by the conjunction of the given conditions.
///
/// The surviving rows are exactly those where every condition holds; they
/// keep their original relative order, the schema is kept, and the output
/// never has more rows than the input. A condition naming an absent column
/// is rejected before any row is scanned; so is one whose fixed value's
/// kind differs from the column's.
pub fn filter(t: &Table, conds: &Vec<Condition>) -> (r: Result<Table, TableError>)
    requires
        t.wf(),
    ensures
        r is Ok <==> conds_wf(*t, conds@),
        (r matches Err(e) && e == TableError::ColumnNotFound) <==> (exists|k: int|
            0 <= k < conds@.len() && !t.has_col((#[trigger] conds@[k]).column@)),
        r matches Err(e) ==> (e == TableError::ColumnNotFound || e == TableError::TypeMismatch),
        r matches Ok(out) ==> {
            &&& out.wf()
            &&& t.same_schema(out)
            &&& out.row_count() == selected_rows(*t, conds@).len()
            &&& out.row_count() <= t.row_count()
            &&& (t.col_count() > 0 ==> forall|c: int, p: int|
                0 <= c < t.col_count() && 0 <= p < out.row_count()
                    ==> #[trigger] out.col_data(c)[p] == t.col_data(c)[selected_rows(
                    *t,
                    conds@,
                )[p]])
        },
{
    let ghost cs = conds@;
    // Resolve every condition's column before any row is scanned.
    let mut cidx: Vec<usize> = Vec::new();
    let mut k: usize = 0;
    while k < conds.len()
        invariant
            t.wf(),
            cs == conds@,
            k == cidx@.len(),
            k <= cs.len(),
            forall|j: int|
                0 <= j < k ==> (#[trigger] cidx@[j]) < t.col_count() && t.col_name(cidx@[j] as int)
                    == cs[j].column@,
        decreases conds@.len() - k,
    {
        match t.find_column(&conds[k].column) {
            Some(c) => {
                cidx.push(c);
            },
            None => {
                return Err(TableError::ColumnNotFound);
            },
        }
        k = k + 1;
    }
    let mut k: usize = 0;
    while k < conds.len()
        invariant
            t.wf(),
            cs == conds@,
            cidx@.len() == cs.len(),
            k <= cs.len(),
            forall|j: int|
                0 <= j < cs.len() ==> (#[trigger] cidx@[j]) < t.col_count() && t.col_name(
                    cidx@[j] as int,
                ) == cs[j].column@,
            forall|j: int|
                0 <= j < k ==> t.col_kind(cidx@[j] as int) == kind_of((#[trigger] cs[j]).value@),
        decreases conds@.len() - k,
    {
        if t.column(cidx[k]).kind() != conds[k].value.kind() {
            proof {
                t.lemma_col_id(cs[k as int].column@, cidx@[k as int] as int);
            }
            return Err(TableError::TypeMismatch);
        }
        k = k + 1;
    }
    proof {
        assert forall|j: int| 0 <= j < cs.len() implies t.has_col((#[trigger] cs[j]).column@)
            && t.col_kind(t.col_id(cs[j].column@)) == kind_of(cs[j].value@) by {
            t.lemma_col_id(cs[j].column@, cidx@[j] as int);
        }
    }
    // Scan the rows in order, collecting the surviving positions.
    let n = t.num_rows();
    let mut sel: Vec<usize> = Vec::new();
    let mut i: usize = 0;
    while i < n
        invariant
            t.wf(),
            cs == conds@,
            n == t.row_count(),
            i <= n,
            cidx@.len() == cs.len(),
            forall|j: int|
                0 <= j < cs.len() ==> (#[trigger] cidx@[j]) < t.col_count() && t.col_name(
                    cidx@[j] as int,
                ) == cs[j].column@,
            sel@.map_values(|u: usize| u as int) == selected_upto(*t, cs, i as int),
            forall|p: int| 0 <= p < sel@.len() ==> (#[trigger] sel@[p]) < n,
        decreases n - i,
    {
        let mut ok = true;
        let mut k: usize = 0;
        while k < conds.len()
            invariant
                t.wf(),
                cs == conds@,
                i < n,
                n == t.row_count(),
                cidx@.len() == cs.len(),
                forall|j: int|
                    0 <= j < cs.len() ==> (#[trigger] cidx@[j]) < t.col_count() && t.col_name(
                        cidx@[j] as int,
                    ) == cs[j].column@,
                k <= cs.len(),
                ok == (forall|j: int| 0 <= j < k ==> cond_holds(*t, #[trigger] cs[j], i as int)),
            decreases conds@.len() - k,
        {
            let h = eval_cond(t, &conds[k], cidx[k], i);
            ok = ok && h;
            k = k + 1;
        }
        proof {
            assert(ok == row_matches(*t, cs, i as int));
        }
        if ok {
            let ghost prevsel = sel@;
            sel.push(i);
            proof {
                assert(sel@.map_values(|u: usize| u as int) =~= prevsel.map_values(
                    |u: usize| u as int,
                ).push(i as int));
            }
        }
        i = i + 1;
    }
    let out = t.take_rows(&sel);
    proof {
        let ghost selspec = selected_rows(*t, cs);
        assert(sel@.map_values(|u: usize| u as int) == selspec);
        assert(sel@.len() == selspec.len());
        lemma_selected_upto_props(*t, cs, t.row_count());
        assert forall|c: int, p: int|
            0 <= c < t.col_count() && 0 <= p < out.row_count() implies #[trigger] out.col_data(c)[p]
            == t.col_data(c)[selspec[p]] by {
            assert(out.col_data(c)[p] == t.col_data(c)[sel@[p] as int]);
            assert(sel@.map_values(|u: usize| u as int)[p] == sel@[p] as int);
        }
    }
    Ok(out)
}

} // verus!
