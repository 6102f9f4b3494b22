//! Grouped summation: one pass over the rows accumulates, for each distinct
//! value of a key column, the running sum of an integer value column. The
//! output lists the distinct keys in first-occurrence order beside their
//! exact sums.
use vstd::prelude::*;
use crate::value::{Value, ValueKind, SpecValue, value_eq};
use crate::column::Column;
use crate::table::{Table, TableError};

verus! {

/// The integer a modelled value carries (zero for non-integers; summed
/// columns are checked to be integer columns before any scan).
pub open spec fn int_of(v: SpecValue) -> int {
    match v {
        SpecValue::Int(n) => n,
        _ => 0,
    }
}

/// The distinct values of a sequence, each at its first occurrence, in
/// first-occurrence order.
pub open spec fn distinct_firsts(s: Seq<SpecValue>) -> Seq<SpecValue>
    decreases s.len(),
{
    if s.len() == 0 {
        Seq::empty()
    } else {
        let d = distinct_firsts(s.drop_last());
        if d.contains(s.last()) {
            d
        } else {
            d.push(s.last())
        }
    }
}

/// The sum of `vs` over exactly the positions where `ks` holds `key`.
pub open spec fn group_total(ks: Seq<SpecValue>, vs: Seq<SpecValue>, key: SpecValue) -> int
    decreases ks.len(),
{
    if ks.len() == 0 {
        0
    } else {
        group_total(ks.drop_last(), vs.drop_last(), key) + if ks.last() == key {
            int_of(vs.last())
        } else {
            0
        }
    }
}

/// The sum of a whole value column.
pub open spec fn total_of(vs: Seq<SpecValue>) -> int
    decreases vs.len(),
{
    if vs.len() == 0 {
        0
    } else {
        total_of(vs.drop_last()) + int_of(vs.last())
    }
}

/// The sum of a sequence of machine integers.
pub open spec fn total_i64s(s: Seq<i64>) -> int
    decreases s.len(),
{
    if s.len() == 0 {
        0
    } else {
        total_i64s(s.drop_last()) + s.last()
    }
}

/// Whether a mathematical integer fits the machine integers sums are kept in.
pub open spec fn in_i64(x: int) -> bool {
    i64::MIN <= x <= i64::MAX
}

/// Whether the running sum for the key seen at row `i` leaves the machine
/// range right after that row is accumulated.
pub open spec fn overflow_at(ks: Seq<SpecValue>, vs: Seq<SpecValue>, i: int) -> bool {
    !in_i64(group_total(ks.take(i + 1), vs.take(i + 1), ks[i]))
}

/// A key absent from a sequence contributes an empty (zero) sum.
pub proof fn lemma_group_total_absent(ks: Seq<SpecValue>, vs: Seq<SpecValue>, key: SpecValue)
    requires
        !ks.contains(key),
    ensures
        group_total(ks, vs, key) == 0,
    decreases ks.len(),
{
    if ks.len() > 0 {
        assert(!ks.drop_last().contains(key)) by {
            if ks.drop_last().contains(key) {
                let i = choose|i: int|
                    0 <= i < ks.drop_last().len() && ks.drop_last()[i] == key;
                assert(ks[i] == key);
            }
        }
        lemma_group_total_absent(ks.drop_last(), vs.drop_last(), key);
        assert(ks[ks.len() - 1] != key);
    }
}

/// A sequence and its distinct-key list contain the same values.
pub proof fn lemma_distinct_firsts_contains(s: Seq<SpecValue>, x: SpecValue)
    ensures
        distinct_firsts(s).contains(x) == s.contains(x),
    decreases s.len(),
{
    if s.len() > 0 {
        lemma_distinct_firsts_contains(s.drop_last(), x);
        let d = distinct_firsts(s.drop_last());
        if s.contains(x) {
            let i = choose|i: int| 0 <= i < s.len() && s[i] == x;
            if i < s.len() - 1 {
                assert(s.drop_last()[i] == x);
                assert(s.drop_last().contains(x));
                if !d.contains(s.last()) {
                    let j = choose|j: int| 0 <= j < d.len() && d[j] == x;
                    assert(d.push(s.last())[j] == x);
                }
            } else {
                if d.contains(s.last()) {
                } else {
                    let dd = d.push(s.last());
                    assert(dd[dd.len() - 1] == x);
                }
            }
        } else {
            assert(!s.drop_last().contains(x)) by {
                if s.drop_last().contains(x) {
                    let i = choose|i: int|
                        0 <= i < s.drop_last().len() && s.drop_last()[i] == x;
                    assert(s[i] == x);
                }
            }
            assert(s[s.len() - 1] != x);
            if !d.contains(s.last()) {
                assert forall|j: int| 0 <= j < d.push(s.last()).len()
                    implies d.push(s.last())[j] != x by {
                    if j < d.len() {
                        assert(!d.contains(x));
                    }
                }
            }
        }
    }
}

/// The distinct-key list never repeats a value.
pub proof fn lemma_distinct_firsts_distinct(s: Seq<SpecValue>)
    ensures
        forall|p: int, q: int|
            0 <= p < q < distinct_firsts(s).len() ==> distinct_firsts(s)[p] != distinct_firsts(
                s,
            )[q],
    decreases s.len(),
{
    if s.len() > 0 {
        lemma_distinct_firsts_distinct(s.drop_last());
        let d = distinct_firsts(s.drop_last());
        if !d.contains(s.last()) {
            assert forall|p: int, q: int|
                0 <= p < q < d.push(s.last()).len() implies d.push(s.last())[p] != d.push(
                s.last(),
            )[q] by {
                if q == d.len() {
                    assert(!d.contains(d.push(s.last())[q]));
                    assert(d.push(s.last())[p] == d[p]);
                }
            }
        }
    }
}

/// Updating one entry moves the total by the difference.
proof fn lemma_total_i64s_update(s: Seq<i64>, j: int, x: i64)
    requires
        0 <= j < s.len(),
    ensures
        total_i64s(s.update(j, x)) == total_i64s(s) - s[j] + x,
    decreases s.len(),
{
    if j == s.len() - 1 {
        assert(s.update(j, x).drop_last() =~= s.drop_last());
        assert(s.update(j, x).last() == x);
    } else {
        lemma_total_i64s_update(s.drop_last(), j, x);
        assert(s.update(j, x).drop_last() =~= s.drop_last().update(j, x));
        assert(s.update(j, x).last() == s.last());
    }
}

/// Sequences equal pointwise as machine and modelled integers sum alike.
proof fn lemma_total_pointwise(a: Seq<SpecValue>, b: Seq<i64>)
    requires
        a.len() == b.len(),
        forall|j: int| 0 <= j < a.len() ==> a[j] == SpecValue::Int((#[trigger] b[j]) as int),
    ensures
        total_of(a) == total_i64s(b),
    decreases a.len(),
{
    if a.len() > 0 {
        lemma_total_pointwise(a.drop_last(), b.drop_last());
    }
}

/// Finds the position of the first entry modelling the same value.
pub(crate) fn find_value(keys: &Vec<Value>, kv: &Value) -> (r: Option<usize>)
    ensures
        r matches Some(j) ==> j < keys@.len() && keys@[j as int]@ == kv@,
        r is None ==> forall|q: int| 0 <= q < keys@.len() ==> (#[trigger] keys@[q])@ != kv@,
{
    let mut j: usize = 0;
    while j < keys.len()
        invariant
            j <= keys@.len(),
            forall|q: int| 0 <= q < j ==> (#[trigger] keys@[q])@ != kv@,
        decreases keys@.len() - j,
    {
        if value_eq(&keys[j], kv) {
            return Some(j);
        }
        j = j + 1;
    }
    None
}

/// Sums the integer value column per distinct key-column value.
///
/// The output table has two columns: the key column's distinct values in
/// first-occurrence order under its original name, and their sums under the
/// value column's name prefixed with `sum_`. Sums are exact; the total over
/// all output sums equals the total of the input value column, and the
/// output has exactly one row per distinct key. A missing column, a
/// non-integer value column, a colliding output name, or a running sum
/// leaving the machine integer range is rejected.
pub fn group_sum(t: &Table, key_column: &String, value_column: &String) -> (r: Result<
    Table,
    TableError,
>)
    requires
        t.wf(),
    ensures
        (r matches Err(e) && e == TableError::ColumnNotFound) <==> (!t.has_col(key_column@)
            || !t.has_col(value_column@)),
        (r matches Err(e) && e == TableError::TypeMismatch) <==> (t.has_col(key_column@)
            && t.has_col(value_column@) && t.col_kind(t.col_id(value_column@)) != ValueKind::Int),
        (r matches Err(e) && e == TableError::AmbiguousColumnName) <==> (t.has_col(key_column@)
            && t.has_col(value_column@) && t.col_kind(t.col_id(value_column@)) == ValueKind::Int
            && key_column@ == "sum_"@ + value_column@),
        (r matches Err(e) && e == TableError::SumOverflow) <==> (t.has_col(key_column@)
            && t.has_col(value_column@) && t.col_kind(t.col_id(value_column@)) == ValueKind::Int
            && key_column@ != "sum_"@ + value_column@ && exists|i: int|
            0 <= i < t.row_count() && overflow_at(
                t.col_data(t.col_id(key_column@)),
                t.col_data(t.col_id(value_column@)),
                i,
            )),
        r matches Err(e) ==> (e == TableError::ColumnNotFound || e == TableError::TypeMismatch || e
            == TableError::AmbiguousColumnName || e == TableError::SumOverflow),
        r matches Ok(out) ==> ({
            let kc = t.col_data(t.col_id(key_column@));
            let vc = t.col_data(t.col_id(value_column@));
            &&& out.wf()
            &&& out.col_count() == 2
            &&& out.col_name(0) == key_column@
            &&& out.col_kind(0) == t.col_kind(t.col_id(key_column@))
            &&& out.col_name(1) == "sum_"@ + value_column@
            &&& out.col_kind(1) == ValueKind::Int
            &&& out.col_data(0) == distinct_firsts(kc)
            &&& out.row_count() == distinct_firsts(kc).len()
            &&& (forall|j: int|
                0 <= j < out.row_count() ==> #[trigger] out.col_data(1)[j] == SpecValue::Int(
                    group_total(kc, vc, out.col_data(0)[j]),
                ))
            &&& total_of(out.col_data(1)) == total_of(vc)
        }),
{
    let kci = match t.find_column(key_column) {
        Some(c) => c,
        None => {
            return Err(TableError::ColumnNotFound);
        },
    };
    let vci = match t.find_column(value_column) {
        Some(c) => c,
        None => {
            return Err(TableError::ColumnNotFound);
        },
    };
    if t.column(vci).kind() != ValueKind::Int {
        return Err(TableError::TypeMismatch);
    }
    let mut sum_name = String::from_str("sum_");
    sum_name.append(value_column.as_str());
    if *key_column == sum_name {
        return Err(TableError::AmbiguousColumnName);
    }
    let ghost kc = t.col_data(kci as int);
    let ghost vc = t.col_data(vci as int);
    let n = t.num_rows();
    let mut keys: Vec<Value> = Vec::new();
    let mut sums: Vec<i64> = Vec::new();
    let mut i: usize = 0;
    proof {
        assert(keys@.map_values(|v: Value| v@) =~= Seq::<SpecValue>::empty());
        assert(kc.take(0).len() == 0);
    }
    while i < n
        invariant
            t.wf(),
            kci < t.col_count(),
            vci < t.col_count(),
            kc == t.col_data(kci as int),
            vc == t.col_data(vci as int),
            t.has_col(key_column@),
            t.has_col(value_column@),
            t.col_id(key_column@) == kci as int,
            t.col_id(value_column@) == vci as int,
            t.col_kind(vci as int) == ValueKind::Int,
            key_column@ != "sum_"@ + value_column@,
            sum_name@ == "sum_"@ + value_column@,
            n == t.row_count(),
            i <= n,
            keys@.len() == sums@.len(),
            keys@.map_values(|v: Value| v@) == distinct_firsts(kc.take(i as int)),
            forall|j: int|
                0 <= j < keys@.len() ==> (#[trigger] sums@[j]) as int == group_total(
                    kc.take(i as int),
                    vc.take(i as int),
                    keys@.map_values(|v: Value| v@)[j],
                ),
            forall|p: int, q: int| 0 <= p < q < keys@.len() ==> keys@[p]@ != keys@[q]@,
            total_i64s(sums@) == total_of(vc.take(i as int)),
            forall|m: int| 0 <= m < i ==> !overflow_at(kc, vc, m),
        decreases n - i,
    {
        let ghost kvals = keys@.map_values(|v: Value| v@);
        let kv = t.value_at(kci, i);
        let vv = t.value_at(vci, i);
        let x: i64 = match vv {
            Value::Int(x) => *x,
            _ => {
                proof {
                    assert(t.columns@[vci as int].wf());
                    assert(crate::value::kind_of(vc[i as int]) == ValueKind::Int);
                }
                0
            },
        };
        proof {
            assert(kc.take(i + 1).drop_last() =~= kc.take(i as int));
            assert(vc.take(i + 1).drop_last() =~= vc.take(i as int));
            assert(kc.take(i + 1).last() == kc[i as int]);
            assert(vc.take(i + 1).last() == vc[i as int]);
        }
        // Look the key up among the keys seen so far.
        let search = find_value(&keys, kv);
        if let Some(j) = search {
            proof {
                assert(kvals[j as int] == kc[i as int]);
                assert(kvals.contains(kc[i as int]));
                lemma_distinct_firsts_contains(kc.take(i as int), kc[i as int]);
                assert(distinct_firsts(kc.take(i + 1)) == kvals);
            }
            let s_old: i64 = sums[j];
            let overflow = if x >= 0 {
                s_old > i64::MAX - x
            } else {
                s_old < i64::MIN - x
            };
            proof {
                assert(int_of(vc[i as int]) == x as int);
                assert(s_old as int == group_total(kc.take(i as int), vc.take(i as int), kvals[j as int]));
                assert(group_total(kc.take(i + 1), vc.take(i + 1), kvals[j as int]) == s_old as int
                    + x as int);
            }
            if overflow {
                proof {
                    assert(overflow_at(kc, vc, i as int));
                }
                return Err(TableError::SumOverflow);
            }
            let ghost oldsums = sums@;
            sums[j] = s_old + x;
            proof {
                lemma_total_i64s_update(oldsums, j as int, (s_old + x) as i64);
                assert(total_i64s(sums@) == total_i64s(oldsums) + x);
                assert(total_of(vc.take(i + 1)) == total_of(vc.take(i as int)) + x);
                assert forall|q: int| 0 <= q < keys@.len() implies (#[trigger] sums@[q]) as int
                    == group_total(kc.take(i + 1), vc.take(i + 1), kvals[q]) by {
                    if q != j {
                        assert(kvals[q] != kvals[j as int]);
                        assert(kc.take(i + 1).last() != kvals[q]);
                    }
                }
                assert(!overflow_at(kc, vc, i as int));
            }
        } else {
            proof {
                assert(!kvals.contains(kc[i as int]));
                lemma_distinct_firsts_contains(kc.take(i as int), kc[i as int]);
                assert(distinct_firsts(kc.take(i + 1)) == kvals.push(kc[i as int]));
                lemma_group_total_absent(kc.take(i as int), vc.take(i as int), kc[i as int]);
            }
            let ghost oldsums = sums@;
            keys.push(kv.clone());
            sums.push(x);
            proof {
                assert(keys@.map_values(|v: Value| v@) =~= kvals.push(kc[i as int]));
                assert(sums@.drop_last() =~= oldsums);
                assert(total_i64s(sums@) == total_i64s(oldsums) + x);
                assert(int_of(vc[i as int]) == x as int);
                assert(total_of(vc.take(i + 1)) == total_of(vc.take(i as int)) + x);
                assert forall|q: int| 0 <= q < keys@.len() implies (#[trigger] sums@[q]) as int
                    == group_total(kc.take(i + 1), vc.take(i + 1), keys@.map_values(|v: Value| v@)[q]) by {
                    let kvals2 = keys@.map_values(|v: Value| v@);
                    if q < kvals.len() {
                        assert(kvals2[q] == kvals[q]);
                        assert(kvals[q] != kc[i as int]);
                    } else {
                        assert(kvals2[q] == kc[i as int]);
                    }
                }
                assert(!overflow_at(kc, vc, i as int));
            }
        }
        i = i + 1;
    }
    proof {
        assert(kc.take(n as int) =~= kc);
        assert(vc.take(n as int) =~= vc);
    }
    // Materialize the two output columns.
    let key_col = Column {
        name: t.column(kci).name().clone(),
        kind: t.column(kci).kind(),
        values: keys,
    };
    let mut sum_vals: Vec<Value> = Vec::new();
    let mut j: usize = 0;
    while j < sums.len()
        invariant
            j <= sums@.len(),
            sum_vals@.len() == j,
            forall|q: int| 0 <= q < j ==> (#[trigger] sum_vals@[q])@ == SpecValue::Int(sums@[q] as int),
        decreases sums@.len() - j,
    {
        sum_vals.push(Value::Int(sums[j]));
        j = j + 1;
    }
    let sum_col = Column { name: sum_name, kind: ValueKind::Int, values: sum_vals };
    let mut cols: Vec<Column> = Vec::new();
    cols.push(key_col);
    cols.push(sum_col);
    let out = Table { columns: cols };
    proof {
        assert(out.col_data(0) == distinct_firsts(kc));
        assert(out.col_count() == 2);
        assert forall|q: int| 0 <= q < out.col_data(1).len() implies #[trigger] out.col_data(1)[q]
            == SpecValue::Int(group_total(kc, vc, out.col_data(0)[q])) by {
            assert(out.col_data(1)[q] == sum_vals@[q]@);
        }
        lemma_total_pointwise(out.col_data(1), sums@);
        assert(out.wf()) by {
            assert(out.columns@[0].wf()) by {
                assert(forall|q: int|
                    0 <= q < kc.len() ==> crate::value::kind_of(#[trigger] kc[q]) == t.col_kind(
                        kci as int,
                    )) by {
                    assert(t.columns@[kci as int].wf());
                }
                assert forall|q: int| 0 <= q < out.col_data(0).len() implies crate::value::kind_of(
                    #[trigger] out.col_data(0)[q],
                ) == t.col_kind(kci as int) by {
                    lemma_distinct_firsts_contains(kc, out.col_data(0)[q]);
                    assert(distinct_firsts(kc).contains(out.col_data(0)[q]));
                    assert(kc.contains(out.col_data(0)[q]));
                }
            }
            assert(out.columns@[1].wf());
            assert(out.col_data(1).len() == out.col_data(0).len());
        }
    }
    Ok(out)
}

} // verus!
