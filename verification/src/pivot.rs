//! Cross-tabulation: one pass accumulates a sum per (row-key, column-key)
//! pair; the distinct row keys and column keys are then sorted ascending to
//! fix the output's row and column order, and every cell receives its
//! pair's sum, zero where the pair never occurred.
use vstd::prelude::*;
use crate::value::{Value, ValueKind, SpecValue, val_lt, value_cmp, Cmp, value_eq,
    lemma_val_lt_connected, lemma_val_lt_trans};
use crate::column::Column;
use crate::table::{Table, TableError};
use crate::group::{int_of, in_i64, distinct_firsts, lemma_distinct_firsts_contains,
    lemma_distinct_firsts_distinct, find_value};
use crate::index::listed;
use crate::text::{val_str, value_to_string};

verus! {

/// The sum of `vs` over exactly the positions where the row-key column
/// holds `r` and the column-key column holds `c`.
pub open spec fn pair_total(
    rks: Seq<SpecValue>,
    cks: Seq<SpecValue>,
    vs: Seq<SpecValue>,
    r: SpecValue,
    c: SpecValue,
) -> int
    decreases rks.len(),
{
    if rks.len() == 0 {
        0
    } else {
        pair_total(rks.drop_last(), cks.drop_last(), vs.drop_last(), r, c) + if rks.last() == r
            && cks.last() == c {
            int_of(vs.last())
        } else {
            0
        }
    }
}

/// A pair that never occurs contributes an empty (zero) sum.
pub proof fn lemma_pair_total_absent(
    rks: Seq<SpecValue>,
    cks: Seq<SpecValue>,
    vs: Seq<SpecValue>,
    r: SpecValue,
    c: SpecValue,
)
    requires
        rks.len() == cks.len(),
        forall|i: int| 0 <= i < rks.len() ==> !((#[trigger] rks[i]) == r && cks[i] == c),
    ensures
        pair_total(rks, cks, vs, r, c) == 0,
    decreases rks.len(),
{
    if rks.len() > 0 {
        lemma_pair_total_absent(rks.drop_last(), cks.drop_last(), vs.drop_last(), r, c);
    }
}

/// Whether the running sum of the pair seen at row `i` leaves the machine
/// range right after that row is accumulated.
pub open spec fn pair_overflow_at(
    rks: Seq<SpecValue>,
    cks: Seq<SpecValue>,
    vs: Seq<SpecValue>,
    i: int,
) -> bool {
    !in_i64(
        pair_total(rks.take(i + 1), cks.take(i + 1), vs.take(i + 1), rks[i], cks[i]),
    )
}

/// Whether a stored pair models the given key pair.
pub open spec fn pair_listed(
    prs: Seq<Value>,
    pcs: Seq<Value>,
    r: SpecValue,
    c: SpecValue,
) -> bool {
    exists|j: int| 0 <= j < prs.len() && (#[trigger] prs[j]@) == r && pcs[j]@ == c
}

/// Two distinct column-key values whose text forms coincide, or one whose
/// text form equals the row-key column's name: the output schema would be
/// ambiguous.
pub open spec fn pivot_name_clash(rk_name: Seq<char>, ck: Seq<SpecValue>) -> bool {
    let d = distinct_firsts(ck);
    (exists|p: int, q: int|
        0 <= p < q < d.len() && val_str(#[trigger] d[p]) == val_str(#[trigger] d[q])) || (exists|
        p: int,
    |
        0 <= p < d.len() && val_str(#[trigger] d[p]) == rk_name)
}

fn find_pair(prs: &Vec<Value>, pcs: &Vec<Value>, rv: &Value, cv: &Value) -> (r: Option<usize>)
    requires
        prs@.len() == pcs@.len(),
    ensures
        r matches Some(j) ==> j < prs@.len() && prs@[j as int]@ == rv@ && pcs@[j as int]@ == cv@,
        r is None ==> forall|q: int|
            0 <= q < prs@.len() ==> !((#[trigger] prs@[q]@) == rv@ && pcs@[q]@ == cv@),
{
    let mut j: usize = 0;
    while j < prs.len()
        invariant
            prs@.len() == pcs@.len(),
            j <= prs@.len(),
            forall|q: int| 0 <= q < j ==> !((#[trigger] prs@[q]@) == rv@ && pcs@[q]@ == cv@),
        decreases prs@.len() - j,
    {
        if value_eq(&prs[j], rv) && value_eq(&pcs[j], cv) {
            return Some(j);
        }
        j = j + 1;
    }
    None
}

/// Finds the position before which `v` belongs: the first entry above it.
fn find_value_pos(out: &Vec<Value>, v: &Value) -> (p: usize)
    requires
        forall|q: int| 0 <= q < out@.len() ==> (#[trigger] out@[q]@) != v@,
    ensures
        p <= out@.len(),
        forall|q: int| 0 <= q < p ==> val_lt((#[trigger] out@[q]@), v@),
        p < out@.len() ==> val_lt(v@, out@[p as int]@),
{
    let mut p: usize = 0;
    while p < out.len()
        invariant
            p <= out@.len(),
            forall|q: int| 0 <= q < out@.len() ==> (#[trigger] out@[q]@) != v@,
            forall|q: int| 0 <= q < p ==> val_lt((#[trigger] out@[q]@), v@),
        decreases out@.len() - p,
    {
        let c = value_cmp(v, &out[p]);
        if c == Cmp::Lt {
            return p;
        }
        proof {
            lemma_val_lt_connected(out@[p as int]@, v@);
        }
        p = p + 1;
    }
    p
}

/// Sorts pairwise-distinct values ascending under the total value order,
/// keeping exactly the same set of values.
fn sort_values(vals: Vec<Value>) -> (out: Vec<Value>)
    requires
        forall|p: int, q: int| 0 <= p < q < vals@.len() ==> vals@[p]@ != vals@[q]@,
    ensures
        out@.len() == vals@.len(),
        forall|p: int, q: int|
            0 <= p < q < out@.len() ==> val_lt((#[trigger] out@[p]@), (#[trigger] out@[q]@)),
        forall|v: SpecValue| listed(out@, v) == listed(vals@, v),
{
    let n = vals.len();
    let mut out: Vec<Value> = Vec::new();
    let mut i: usize = 0;
    proof {
        assert(vals@.take(0).len() == 0);
    }
    while i < n
        invariant
            n == vals@.len(),
            i <= n,
            out@.len() == i,
            forall|p: int, q: int| 0 <= p < q < vals@.len() ==> vals@[p]@ != vals@[q]@,
            forall|p: int, q: int|
                0 <= p < q < out@.len() ==> val_lt((#[trigger] out@[p]@), (#[trigger] out@[q]@)),
            forall|v: SpecValue| listed(out@, v) == listed(vals@.take(i as int), v),
        decreases n - i,
    {
        let ghost prev = out@;
        let v = vals[i].clone();
        proof {
            // The incoming value differs from everything placed so far.
            assert forall|q: int| 0 <= q < out@.len() implies (#[trigger] out@[q]@)
                != vals@[i as int]@ by {
                assert(listed(prev, out@[q]@));
                let w = choose|w: int|
                    0 <= w < vals@.take(i as int).len() && (#[trigger] vals@.take(i as int)[w]@)
                        == out@[q]@;
                assert(vals@[w]@ == out@[q]@);
            }
        }
        // Find the insertion position.
        let p = find_value_pos(&out, &v);
        out.insert(p, v);
        proof {
            prev.insert_ensures(p as int, v);
            assert(out@ == prev.insert(p as int, v));
            assert(out@.len() == prev.len() + 1);
            assert(out@[p as int]@ == vals@[i as int]@);
            assert forall|idx: int| 0 <= idx < p implies out@[idx] == prev[idx] by {
                assert(prev.insert(p as int, v)[idx] == prev[idx]);
            }
            assert forall|idx: int| p <= idx < prev.len() implies out@[idx + 1] == prev[idx] by {
                assert(prev.insert(p as int, v)[idx + 1] == prev[idx]);
            }
            assert forall|q: int, q2: int| 0 <= q < q2 < out@.len() implies val_lt(
                (#[trigger] out@[q]@),
                (#[trigger] out@[q2]@),
            ) by {
                if q2 < p {
                } else if q > p {
                } else if q == p && q2 == p + 1 {
                } else if q == p {
                    lemma_val_lt_trans(vals@[i as int]@, prev[p as int]@, prev[q2 - 1]@);
                } else if q2 == p {
                } else {
                    if q2 - 1 > p {
                        lemma_val_lt_trans(vals@[i as int]@, prev[p as int]@, prev[q2 - 1]@);
                    }
                    lemma_val_lt_trans(prev[q]@, vals@[i as int]@, prev[q2 - 1]@);
                }
            }
            assert forall|w: SpecValue| listed(out@, w) == listed(vals@.take(i + 1), w) by {
                if listed(out@, w) {
                    let q = choose|q: int| 0 <= q < out@.len() && (#[trigger] out@[q]@) == w;
                    if q == p {
                        assert(vals@.take(i + 1)[i as int]@ == w);
                    } else {
                        let q0 = if q < p {
                            q
                        } else {
                            q - 1
                        };
                        assert(prev[q0]@ == w);
                        assert(listed(prev, w));
                        assert(listed(vals@.take(i as int), w));
                        let u = choose|u: int|
                            0 <= u < vals@.take(i as int).len() && (#[trigger] vals@.take(
                                i as int,
                            )[u]@) == w;
                        assert(vals@.take(i + 1)[u]@ == w);
                    }
                }
                if listed(vals@.take(i + 1), w) {
                    let u = choose|u: int|
                        0 <= u < vals@.take(i + 1).len() && (#[trigger] vals@.take(i + 1)[u]@)
                            == w;
                    if u == i {
                        assert(out@[p as int]@ == w);
                    } else {
                        assert(vals@.take(i as int)[u]@ == w);
                        assert(listed(vals@.take(i as int), w));
                        assert(listed(prev, w));
                        let q = choose|q: int| 0 <= q < prev.len() && (#[trigger] prev[q]@) == w;
                        if q < p {
                            assert(out@[q]@ == w);
                        } else {
                            assert(out@[q + 1]@ == w);
                        }
                    }
                }
            }
        }
        i = i + 1;
    }
    proof {
        assert(vals@.take(n as int) =~= vals@);
    }
    out
}

/// Cross-tabulates the table: one output row per distinct row-key value
/// (ascending), one leading row-key column under its original name, and
/// one integer column per distinct column-key value (ascending), named by
/// the value's text form. Every cell holds the exact sum of the value
/// column over the rows matching its (row-key, column-key) pair, zero when
/// the pair never occurs. Missing columns, a non-integer value column, an
/// ambiguous output name, and a running sum leaving the machine range are
/// rejected.
pub fn pivot(
    t: &Table,
    row_key: &String,
    col_key: &String,
    value_column: &String,
) -> (r: Result<Table, TableError>)
    requires
        t.wf(),
    ensures
        (r matches Err(e) && e == TableError::ColumnNotFound) <==> (!t.has_col(row_key@)
            || !t.has_col(col_key@) || !t.has_col(value_column@)),
        (r matches Err(e) && e == TableError::TypeMismatch) <==> (t.has_col(row_key@)
            && t.has_col(col_key@) && t.has_col(value_column@) && t.col_kind(
            t.col_id(value_column@),
        ) != ValueKind::Int),
        (r matches Err(e) && e == TableError::SumOverflow) <==> (t.has_col(row_key@) && t.has_col(
            col_key@,
        ) && t.has_col(value_column@) && t.col_kind(t.col_id(value_column@)) == ValueKind::Int
            && exists|i: int|
            0 <= i < t.row_count() && pair_overflow_at(
                t.col_data(t.col_id(row_key@)),
                t.col_data(t.col_id(col_key@)),
                t.col_data(t.col_id(value_column@)),
                i,
            )),
        (r matches Err(e) && e == TableError::AmbiguousColumnName) ==> pivot_name_clash(
            t.col_name(t.col_id(row_key@)),
            t.col_data(t.col_id(col_key@)),
        ),
        r matches Err(e) ==> (e == TableError::ColumnNotFound || e == TableError::TypeMismatch || e
            == TableError::SumOverflow || e == TableError::AmbiguousColumnName),
        r matches Ok(out) ==> ({
            let rkc = t.col_data(t.col_id(row_key@));
            let ckc = t.col_data(t.col_id(col_key@));
            let vc = t.col_data(t.col_id(value_column@));
            &&& out.wf()
            &&& !pivot_name_clash(t.col_name(t.col_id(row_key@)), ckc)
            &&& out.col_name(0) == t.col_name(t.col_id(row_key@))
            &&& out.col_kind(0) == t.col_kind(t.col_id(row_key@))
            &&& out.col_count() == 1 + distinct_firsts(ckc).len()
            &&& out.row_count() == distinct_firsts(rkc).len()
            &&& (forall|p: int, q: int|
                0 <= p < q < out.row_count() ==> val_lt(
                    #[trigger] out.col_data(0)[p],
                    #[trigger] out.col_data(0)[q],
                ))
            &&& (forall|v: SpecValue| out.col_data(0).contains(v) == rkc.contains(v))
            &&& exists|cks: Seq<SpecValue>|
                {
                    &&& cks.len() == out.col_count() - 1
                    &&& (forall|p: int, q: int|
                        0 <= p < q < cks.len() ==> val_lt(#[trigger] cks[p], #[trigger] cks[q]))
                    &&& (forall|v: SpecValue| cks.contains(v) == ckc.contains(v))
                    &&& (forall|c: int|
                        0 <= c < cks.len() ==> #[trigger] out.col_name(1 + c) == val_str(cks[c])
                            && out.col_kind(1 + c) == ValueKind::Int)
                    &&& (forall|c: int, p: int|
                        0 <= c < cks.len() && 0 <= p < out.row_count()
                            ==> #[trigger] out.col_data(1 + c)[p] == SpecValue::Int(
                            pair_total(rkc, ckc, vc, out.col_data(0)[p], cks[c]),
                        ))
                }
        }),
{
    let rki = match t.find_column(row_key) {
        Some(c) => c,
        None => {
            return Err(TableError::ColumnNotFound);
        },
    };
    let cki = match t.find_column(col_key) {
        Some(c) => c,
        None => {
            return Err(TableError::ColumnNotFound);
        },
    };
    let vci = match t.find_column(value_column) {
        Some(c) => c,
        None => {
            return Err(TableError::ColumnNotFound);
        },
    };
    if t.column(vci).kind() != ValueKind::Int {
        return Err(TableError::TypeMismatch);
    }
    let ghost rkc = t.col_data(rki as int);
    let ghost ckc = t.col_data(cki as int);
    let ghost vc = t.col_data(vci as int);
    let n = t.num_rows();
    let mut rkeys: Vec<Value> = Vec::new();
    let mut ckeys: Vec<Value> = Vec::new();
    let mut prs: Vec<Value> = Vec::new();
    let mut pcs: Vec<Value> = Vec::new();
    let mut psums: Vec<i64> = Vec::new();
    let mut i: usize = 0;
    proof {
        assert(rkeys@.map_values(|v: Value| v@) =~= Seq::<SpecValue>::empty());
        assert(ckeys@.map_values(|v: Value| v@) =~= Seq::<SpecValue>::empty());
    }
    while i < n
        invariant
            t.wf(),
            rki < t.col_count(),
            cki < t.col_count(),
            vci < t.col_count(),
            rkc == t.col_data(rki as int),
            ckc == t.col_data(cki as int),
            vc == t.col_data(vci as int),
            t.has_col(row_key@),
            t.has_col(col_key@),
            t.has_col(value_column@),
            t.col_id(row_key@) == rki as int,
            t.col_id(col_key@) == cki as int,
            t.col_id(value_column@) == vci as int,
            t.col_kind(vci as int) == ValueKind::Int,
            n == t.row_count(),
            i <= n,
            rkeys@.map_values(|v: Value| v@) == distinct_firsts(rkc.take(i as int)),
            ckeys@.map_values(|v: Value| v@) == distinct_firsts(ckc.take(i as int)),
            prs@.len() == pcs@.len(),
            prs@.len() == psums@.len(),
            forall|p: int, q: int|
                0 <= p < q < prs@.len() ==> !((#[trigger] prs@[p]@) == (#[trigger] prs@[q]@)
                    && pcs@[p]@ == pcs@[q]@),
            forall|j: int|
                0 <= j < psums@.len() ==> (#[trigger] psums@[j]) as int == pair_total(
                    rkc.take(i as int),
                    ckc.take(i as int),
                    vc.take(i as int),
                    prs@[j]@,
                    pcs@[j]@,
                ),
            forall|m: int| 0 <= m < i ==> pair_listed(prs@, pcs@, #[trigger] rkc[m], ckc[m]),
            forall|m: int| 0 <= m < i ==> !pair_overflow_at(rkc, ckc, vc, m),
        decreases n - i,
    {
        let rv = t.value_at(rki, i);
        let cv = t.value_at(cki, i);
        let vv = t.value_at(vci, i);
        let x: i64 = match vv {
            Value::Int(x) => *x,
            _ => {
                proof {
                    assert(t.columns@[vci as int].wf());
                    assert(crate::value::kind_of(vc[i as int]) == ValueKind::Int);
                }
                0
            },
        };
        proof {
            assert(rkc.take(i + 1).drop_last() =~= rkc.take(i as int));
            assert(ckc.take(i + 1).drop_last() =~= ckc.take(i as int));
            assert(vc.take(i + 1).drop_last() =~= vc.take(i as int));
            assert(rkc.take(i + 1).last() == rkc[i as int]);
            assert(ckc.take(i + 1).last() == ckc[i as int]);
            assert(vc.take(i + 1).last() == vc[i as int]);
            assert(int_of(vc[i as int]) == x as int);
        }
        // Record the distinct row and column keys in first-occurrence order.
        let ghost rvals = rkeys@.map_values(|v: Value| v@);
        if let Some(_j) = find_value(&rkeys, rv) {
            proof {
                assert(rvals[_j as int] == rkc[i as int]);
                assert(rvals.contains(rkc[i as int]));
                lemma_distinct_firsts_contains(rkc.take(i as int), rkc[i as int]);
                assert(distinct_firsts(rkc.take(i + 1)) == rvals);
            }
        } else {
            proof {
                assert(!rvals.contains(rkc[i as int])) by {
                    if rvals.contains(rkc[i as int]) {
                        let w = choose|w: int|
                            0 <= w < rvals.len() && rvals[w] == rkc[i as int];
                        assert(rkeys@[w]@ == rkc[i as int]);
                    }
                }
                lemma_distinct_firsts_contains(rkc.take(i as int), rkc[i as int]);
            }
            rkeys.push(rv.clone());
            proof {
                assert(rkeys@.map_values(|v: Value| v@) =~= rvals.push(rkc[i as int]));
            }
        }
        let ghost cvals = ckeys@.map_values(|v: Value| v@);
        if let Some(_j) = find_value(&ckeys, cv) {
            proof {
                assert(cvals[_j as int] == ckc[i as int]);
                assert(cvals.contains(ckc[i as int]));
                lemma_distinct_firsts_contains(ckc.take(i as int), ckc[i as int]);
                assert(distinct_firsts(ckc.take(i + 1)) == cvals);
            }
        } else {
            proof {
                assert(!cvals.contains(ckc[i as int])) by {
                    if cvals.contains(ckc[i as int]) {
                        let w = choose|w: int|
                            0 <= w < cvals.len() && cvals[w] == ckc[i as int];
                        assert(ckeys@[w]@ == ckc[i as int]);
                    }
                }
                lemma_distinct_firsts_contains(ckc.take(i as int), ckc[i as int]);
            }
            ckeys.push(cv.clone());
            proof {
                assert(ckeys@.map_values(|v: Value| v@) =~= cvals.push(ckc[i as int]));
            }
        }
        // Accumulate the pair's running sum.
        if let Some(j) = find_pair(&prs, &pcs, rv, cv) {
            let s_old: i64 = psums[j];
            let overflow = if x >= 0 {
                s_old > i64::MAX - x
            } else {
                s_old < i64::MIN - x
            };
            proof {
                assert(s_old as int == pair_total(
                    rkc.take(i as int),
                    ckc.take(i as int),
                    vc.take(i as int),
                    prs@[j as int]@,
                    pcs@[j as int]@,
                ));
                assert(pair_total(
                    rkc.take(i + 1),
                    ckc.take(i + 1),
                    vc.take(i + 1),
                    prs@[j as int]@,
                    pcs@[j as int]@,
                ) == s_old as int + x as int);
            }
            if overflow {
                proof {
                    assert(pair_overflow_at(rkc, ckc, vc, i as int));
                }
                return Err(TableError::SumOverflow);
            }
            psums[j] = s_old + x;
            proof {
                assert forall|q: int| 0 <= q < psums@.len() implies (#[trigger] psums@[q]) as int
                    == pair_total(
                    rkc.take(i + 1),
                    ckc.take(i + 1),
                    vc.take(i + 1),
                    prs@[q]@,
                    pcs@[q]@,
                ) by {
                    if q != j {
                        assert(!((prs@[q]@ == prs@[j as int]@) && pcs@[q]@ == pcs@[j as int]@));
                    }
                }
                assert(pair_listed(prs@, pcs@, rkc[i as int], ckc[i as int]));
                assert forall|m: int| 0 <= m < i + 1 implies pair_listed(
                    prs@,
                    pcs@,
                    #[trigger] rkc[m],
                    ckc[m],
                ) by {}
            }
        } else {
            let ghost oldprs = prs@;
            let ghost oldpcs = pcs@;
            prs.push(rv.clone());
            pcs.push(cv.clone());
            psums.push(x);
            proof {
                assert forall|m: int| 0 <= m < rkc.take(i as int).len() implies !((
                #[trigger] rkc.take(i as int)[m]) == rkc[i as int] && ckc.take(i as int)[m]
                    == ckc[i as int]) by {
                    if rkc.take(i as int)[m] == rkc[i as int] && ckc.take(i as int)[m]
                        == ckc[i as int] {
                        assert(pair_listed(oldprs, oldpcs, rkc[m], ckc[m]));
                        let w = choose|w: int|
                            0 <= w < oldprs.len() && (#[trigger] oldprs[w]@) == rkc[m]
                                && oldpcs[w]@ == ckc[m];
                        assert(oldprs[w]@ == rv@ && oldpcs[w]@ == cv@);
                    }
                }
                lemma_pair_total_absent(
                    rkc.take(i as int),
                    ckc.take(i as int),
                    vc.take(i as int),
                    rkc[i as int],
                    ckc[i as int],
                );
                assert forall|q: int| 0 <= q < psums@.len() implies (#[trigger] psums@[q]) as int
                    == pair_total(
                    rkc.take(i + 1),
                    ckc.take(i + 1),
                    vc.take(i + 1),
                    prs@[q]@,
                    pcs@[q]@,
                ) by {
                    if q < oldprs.len() {
                        assert(prs@[q]@ == oldprs[q]@ && pcs@[q]@ == oldpcs[q]@);
                        assert(!(oldprs[q]@ == rkc[i as int] && oldpcs[q]@ == ckc[i as int]));
                    } else {
                        assert(prs@[q]@ == rkc[i as int] && pcs@[q]@ == ckc[i as int]);
                    }
                }
                assert(prs@[prs@.len() - 1]@ == rkc[i as int] && pcs@[pcs@.len() - 1]@
                    == ckc[i as int]);
                assert(pair_listed(prs@, pcs@, rkc[i as int], ckc[i as int]));
                assert forall|m: int| 0 <= m < i + 1 implies pair_listed(
                    prs@,
                    pcs@,
                    #[trigger] rkc[m],
                    ckc[m],
                ) by {
                    if m < i {
                        let w = choose|w: int|
                            0 <= w < oldprs.len() && (#[trigger] oldprs[w]@) == rkc[m]
                                && oldpcs[w]@ == ckc[m];
                        assert(prs@[w]@ == rkc[m] && pcs@[w]@ == ckc[m]);
                    }
                }
                assert(!pair_overflow_at(rkc, ckc, vc, i as int));
            }
        }
        i = i + 1;
    }
    proof {
        assert(rkc.take(n as int) =~= rkc);
        assert(ckc.take(n as int) =~= ckc);
        assert(vc.take(n as int) =~= vc);
        lemma_distinct_firsts_distinct(rkc);
        lemma_distinct_firsts_distinct(ckc);
        assert forall|p: int, q: int| 0 <= p < q < rkeys@.len() implies (#[trigger] rkeys@[p]@)
            != (#[trigger] rkeys@[q]@) by {
            let d = distinct_firsts(rkc);
            assert(rkeys@.map_values(|v: Value| v@) == d);
            assert(d[p] == rkeys@[p]@ && d[q] == rkeys@[q]@);
        }
        assert forall|p: int, q: int| 0 <= p < q < ckeys@.len() implies (#[trigger] ckeys@[p]@)
            != (#[trigger] ckeys@[q]@) by {
            let d = distinct_firsts(ckc);
            assert(ckeys@.map_values(|v: Value| v@) == d);
            assert(d[p] == ckeys@[p]@ && d[q] == ckeys@[q]@);
        }
    }
    // Fix deterministic output order: sort both distinct key sets.
    let ghost rvals = rkeys@.map_values(|v: Value| v@);
    let ghost cvals = ckeys@.map_values(|v: Value| v@);
    let ghost rkeys_seq = rkeys@;
    let ghost ckeys_seq = ckeys@;
    let skeys = sort_values(rkeys);
    let sckeys = sort_values(ckeys);
    // Derive the output column names and reject ambiguity.
    let mut names: Vec<String> = Vec::new();
    names.push(t.column(rki).name().clone());
    let mut c: usize = 0;
    while c < sckeys.len()
        invariant
            c <= sckeys@.len(),
            names@.len() == 1 + c,
            names@[0]@ == t.col_name(rki as int),
            forall|q: int| 0 < q <= c ==> (#[trigger] names@[q]@) == val_str(sckeys@[q - 1]@),
        decreases sckeys@.len() - c,
    {
        names.push(value_to_string(&sckeys[c]));
        c = c + 1;
    }
    let mut a: usize = 0;
    while a < names.len()
        invariant
            t.wf(),
            rki < t.col_count(),
            cki < t.col_count(),
            vci < t.col_count(),
            rkc == t.col_data(rki as int),
            ckc == t.col_data(cki as int),
            vc == t.col_data(vci as int),
            t.has_col(row_key@),
            t.has_col(col_key@),
            t.has_col(value_column@),
            t.col_id(row_key@) == rki as int,
            t.col_id(col_key@) == cki as int,
            t.col_id(value_column@) == vci as int,
            t.col_kind(vci as int) == ValueKind::Int,
            n == t.row_count(),
            forall|m: int| 0 <= m < n ==> !pair_overflow_at(rkc, ckc, vc, m),
            rvals == distinct_firsts(rkc),
            cvals == distinct_firsts(ckc),
            cvals == ckeys_seq.map_values(|v: Value| v@),
            forall|p: int, q: int|
                0 <= p < q < sckeys@.len() ==> val_lt((#[trigger] sckeys@[p]@), (#[trigger] sckeys@[q]@)),
            forall|v: SpecValue| listed(sckeys@, v) == listed(ckeys_seq, v),
            names@.len() == 1 + sckeys@.len(),
            names@[0]@ == t.col_name(rki as int),
            forall|q: int| 0 < q < names@.len() ==> (#[trigger] names@[q]@) == val_str(
                sckeys@[q - 1]@,
            ),
            a <= names@.len(),
            forall|p: int, q: int| 0 <= p < q < names@.len() && p < a ==> (#[trigger] names@[p]@)
                != (#[trigger] names@[q]@),
        decreases names@.len() - a,
    {
        let mut b: usize = a + 1;
        while b < names.len()
            invariant
                t.wf(),
                rki < t.col_count(),
                cki < t.col_count(),
                vci < t.col_count(),
                rkc == t.col_data(rki as int),
                ckc == t.col_data(cki as int),
                vc == t.col_data(vci as int),
                t.has_col(row_key@),
                t.has_col(col_key@),
                t.has_col(value_column@),
                t.col_id(row_key@) == rki as int,
                t.col_id(col_key@) == cki as int,
                t.col_id(value_column@) == vci as int,
                t.col_kind(vci as int) == ValueKind::Int,
                n == t.row_count(),
                forall|m: int| 0 <= m < n ==> !pair_overflow_at(rkc, ckc, vc, m),
                rvals == distinct_firsts(rkc),
                cvals == distinct_firsts(ckc),
                cvals == ckeys_seq.map_values(|v: Value| v@),
                forall|p: int, q: int|
                    0 <= p < q < sckeys@.len() ==> val_lt(
                        (#[trigger] sckeys@[p]@),
                        (#[trigger] sckeys@[q]@),
                    ),
                forall|v: SpecValue| listed(sckeys@, v) == listed(ckeys_seq, v),
                names@.len() == 1 + sckeys@.len(),
                names@[0]@ == t.col_name(rki as int),
                forall|q: int| 0 < q < names@.len() ==> (#[trigger] names@[q]@) == val_str(
                    sckeys@[q - 1]@,
                ),
                a < b,
                a < names@.len(),
                forall|q: int| a < q < b ==> (#[trigger] names@[q]@) != names@[a as int]@,
            decreases names@.len() - b,
        {
            if names[a].eq(&names[b]) {
                proof {
                    // Map the colliding pair back to the clash predicate.
                    let d = distinct_firsts(ckc);
                    if a == 0 {
                        let v = sckeys@[b - 1]@;
                        assert(listed(sckeys@, v));
                        assert(listed(ckeys_seq, v));
                        assert(cvals.contains(v)) by {
                            let w = choose|w: int|
                                0 <= w < ckeys_seq.len() && (#[trigger] ckeys_seq[w]@) == v;
                            assert(cvals[w] == v);
                        }
                        let p = choose|p: int| 0 <= p < d.len() && d[p] == v;
                        assert(val_str(d[p]) == t.col_name(rki as int));
                    } else {
                        let v1 = sckeys@[a - 1]@;
                        let v2 = sckeys@[b - 1]@;
                        assert(val_lt(v1, v2));
                        assert(v1 != v2) by {
                            crate::value::lemma_val_lt_asym(v1, v2);
                        }
                        assert(cvals.contains(v1)) by {
                            assert(listed(sckeys@, v1));
                            assert(listed(ckeys_seq, v1));
                            let w = choose|w: int|
                                0 <= w < ckeys_seq.len() && (#[trigger] ckeys_seq[w]@) == v1;
                            assert(cvals[w] == v1);
                        }
                        assert(cvals.contains(v2)) by {
                            assert(listed(sckeys@, v2));
                            assert(listed(ckeys_seq, v2));
                            let w = choose|w: int|
                                0 <= w < ckeys_seq.len() && (#[trigger] ckeys_seq[w]@) == v2;
                            assert(cvals[w] == v2);
                        }
                        let p1 = choose|p1: int| 0 <= p1 < d.len() && d[p1] == v1;
                        let p2 = choose|p2: int| 0 <= p2 < d.len() && d[p2] == v2;
                        assert(p1 != p2);
                        if p1 < p2 {
                            assert(val_str(d[p1]) == val_str(d[p2]));
                        } else {
                            assert(val_str(d[p2]) == val_str(d[p1]));
                        }
                    }
                    assert(pivot_name_clash(t.col_name(rki as int), ckc));
                }
                return Err(TableError::AmbiguousColumnName);
            }
            b = b + 1;
        }
        a = a + 1;
    }
    // Materialize the output columns.
    let ghost svals = skeys@.map_values(|v: Value| v@);
    let ghost scvals = sckeys@.map_values(|v: Value| v@);
    let nrows = skeys.len();
    let mut cols: Vec<Column> = Vec::new();
    let key_col = Column {
        name: t.column(rki).name().clone(),
        kind: t.column(rki).kind(),
        values: skeys,
    };
    cols.push(key_col);
    let mut c: usize = 0;
    while c < sckeys.len()
        invariant
            t.wf(),
            rki < t.col_count(),
            cki < t.col_count(),
            vci < t.col_count(),
            rkc == t.col_data(rki as int),
            ckc == t.col_data(cki as int),
            vc == t.col_data(vci as int),
            rkc.len() == ckc.len(),
            prs@.len() == pcs@.len(),
            prs@.len() == psums@.len(),
            forall|j: int|
                0 <= j < psums@.len() ==> (#[trigger] psums@[j]) as int == pair_total(
                    rkc,
                    ckc,
                    vc,
                    prs@[j]@,
                    pcs@[j]@,
                ),
            forall|m: int| 0 <= m < rkc.len() ==> pair_listed(prs@, pcs@, #[trigger] rkc[m], ckc[m]),
            c <= sckeys@.len(),
            cols@.len() == 1 + c,
            cols@[0].values@.map_values(|v: Value| v@) == svals,
            cols@[0].spec_name() == t.col_name(rki as int),
            cols@[0].spec_kind() == t.col_kind(rki as int),
            nrows == svals.len(),
            names@.len() == 1 + sckeys@.len(),
            names@[0]@ == t.col_name(rki as int),
            forall|q: int| 0 < q < names@.len() ==> (#[trigger] names@[q]@) == val_str(
                sckeys@[q - 1]@,
            ),
            scvals == sckeys@.map_values(|v: Value| v@),
            forall|j: int|
                0 < j <= c ==> (#[trigger] cols@[j]).spec_name() == names@[j]@
                    && cols@[j].spec_kind() == ValueKind::Int && cols@[j].values@.len() == nrows,
            forall|j: int, p: int|
                0 < j <= c && 0 <= p < nrows ==> (#[trigger] cols@[j].values@[p]@)
                    == SpecValue::Int(pair_total(rkc, ckc, vc, svals[p], scvals[j - 1])),
        decreases sckeys@.len() - c,
    {
        let mut cells: Vec<Value> = Vec::new();
        let mut p: usize = 0;
        while p < nrows
            invariant
                prs@.len() == pcs@.len(),
                prs@.len() == psums@.len(),
                forall|j: int|
                    0 <= j < psums@.len() ==> (#[trigger] psums@[j]) as int == pair_total(
                        rkc,
                        ckc,
                        vc,
                        prs@[j]@,
                        pcs@[j]@,
                    ),
                forall|m: int|
                    0 <= m < rkc.len() ==> pair_listed(prs@, pcs@, #[trigger] rkc[m], ckc[m]),
                rkc.len() == ckc.len(),
                c < sckeys@.len(),
                cols@.len() == 1 + c,
                p <= nrows,
                cells@.len() == p,
                nrows == cols@[0].values@.len(),
                svals == cols@[0].values@.map_values(|v: Value| v@),
                scvals == sckeys@.map_values(|v: Value| v@),
                forall|q: int|
                    0 <= q < p ==> (#[trigger] cells@[q]@) == SpecValue::Int(
                        pair_total(rkc, ckc, vc, svals[q], scvals[c as int]),
                    ),
            decreases nrows - p,
        {
            let rv = &cols[0].values[p];
            let cell: i64 = match find_pair(&prs, &pcs, rv, &sckeys[c]) {
                Some(j) => psums[j],
                None => {
                    proof {
                        assert forall|m: int| 0 <= m < rkc.len() implies !((#[trigger] rkc[m])
                            == rv@ && ckc[m] == sckeys@[c as int]@) by {
                            if rkc[m] == rv@ && ckc[m] == sckeys@[c as int]@ {
                                assert(pair_listed(prs@, pcs@, rkc[m], ckc[m]));
                                let w = choose|w: int|
                                    0 <= w < prs@.len() && (#[trigger] prs@[w]@) == rkc[m]
                                        && pcs@[w]@ == ckc[m];
                                assert(prs@[w]@ == rv@ && pcs@[w]@ == sckeys@[c as int]@);
                            }
                        }
                        lemma_pair_total_absent(rkc, ckc, vc, rv@, sckeys@[c as int]@);
                    }
                    0
                },
            };
            cells.push(Value::Int(cell));
            p = p + 1;
        }
        cols.push(Column { name: names[1 + c].clone(), kind: ValueKind::Int, values: cells });
        c = c + 1;
    }
    let out = Table { columns: cols };
    proof {
        // Well-formedness: consistent kinds, one shared length, unique names.
        assert forall|j: int| 0 <= j < out.col_count() implies (#[trigger] out.columns@[j]).wf() by {
            if j == 0 {
                assert forall|q: int| 0 <= q < out.col_data(0).len() implies crate::value::kind_of(
                    #[trigger] out.col_data(0)[q],
                ) == t.col_kind(rki as int) by {
                    assert(out.col_data(0)[q] == svals[q]);
                    assert(skeys@[q]@ == svals[q]);
                    assert(listed(skeys@, svals[q]));
                    assert(listed(rkeys_seq, svals[q]));
                    assert(rvals.contains(svals[q])) by {
                        let w = choose|w: int|
                            0 <= w < rkeys_seq.len() && (#[trigger] rkeys_seq[w]@) == svals[q];
                        assert(rvals[w] == svals[q]);
                    }
                    lemma_distinct_firsts_contains(rkc, svals[q]);
                    assert(rkc.contains(svals[q]));
                    assert(t.columns@[rki as int].wf());
                }
            }
        }
        assert forall|c1: int, c2: int| 0 <= c1 < c2 < out.col_count() implies #[trigger] out
            .col_name(c1) != #[trigger] out.col_name(c2) by {
            assert(out.col_name(c1) == names@[c1]@ && out.col_name(c2) == names@[c2]@);
        }
        assert forall|j: int| 0 <= j < out.col_count() implies (#[trigger] out.col_data(j)).len()
            == out.row_count() by {
            assert(out.col_data(0).len() == svals.len());
        }
        assert(out.wf());
        assert(out.col_data(0) == svals);
        // The sorted distinct keys carry exactly the column's values.
        assert forall|v: SpecValue| out.col_data(0).contains(v) == rkc.contains(v) by {
            lemma_distinct_firsts_contains(rkc, v);
            if svals.contains(v) {
                let q = choose|q: int| 0 <= q < svals.len() && svals[q] == v;
                assert(skeys@[q]@ == v);
                assert(listed(skeys@, v));
                assert(listed(rkeys_seq, v));
                assert(rvals.contains(v)) by {
                    let w = choose|w: int|
                        0 <= w < rkeys_seq.len() && (#[trigger] rkeys_seq[w]@) == v;
                    assert(rvals[w] == v);
                }
            }
            if rkc.contains(v) {
                assert(distinct_firsts(rkc).contains(v));
                let w = choose|w: int| 0 <= w < rvals.len() && rvals[w] == v;
                assert(rkeys_seq[w]@ == v);
                assert(listed(rkeys_seq, v));
                assert(listed(skeys@, v));
                let u = choose|u: int| 0 <= u < skeys@.len() && (#[trigger] skeys@[u]@) == v;
                assert(svals[u] == v);
            }
        }
        assert forall|v: SpecValue| scvals.contains(v) == ckc.contains(v) by {
            lemma_distinct_firsts_contains(ckc, v);
            if scvals.contains(v) {
                let q = choose|q: int| 0 <= q < scvals.len() && scvals[q] == v;
                assert(sckeys@[q]@ == v);
                assert(listed(sckeys@, v));
                assert(listed(ckeys_seq, v));
                assert(cvals.contains(v)) by {
                    let w = choose|w: int|
                        0 <= w < ckeys_seq.len() && (#[trigger] ckeys_seq[w]@) == v;
                    assert(cvals[w] == v);
                }
            }
            if ckc.contains(v) {
                assert(distinct_firsts(ckc).contains(v));
                let w = choose|w: int| 0 <= w < cvals.len() && cvals[w] == v;
                assert(ckeys_seq[w]@ == v);
                assert(listed(ckeys_seq, v));
                assert(listed(sckeys@, v));
                let u = choose|u: int| 0 <= u < sckeys@.len() && (#[trigger] sckeys@[u]@) == v;
                assert(scvals[u] == v);
            }
        }
        // No clash: otherwise the pairwise name check would have tripped.
        assert(!pivot_name_clash(t.col_name(rki as int), ckc)) by {
            let d = distinct_firsts(ckc);
            if exists|p: int, q: int|
                0 <= p < q < d.len() && val_str(#[trigger] d[p]) == val_str(#[trigger] d[q]) {
                let (p, q) = choose|p: int, q: int|
                    0 <= p < q < d.len() && val_str(#[trigger] d[p]) == val_str(#[trigger] d[q]);
                assert(d[p] != d[q]) by {
                    lemma_distinct_firsts_distinct(ckc);
                }
                assert(cvals.contains(d[p]) && cvals.contains(d[q])) by {
                    assert(d == cvals);
                }
                assert(ckc.contains(d[p]) && ckc.contains(d[q])) by {
                    lemma_distinct_firsts_contains(ckc, d[p]);
                    lemma_distinct_firsts_contains(ckc, d[q]);
                }
                let u1 = choose|u1: int| 0 <= u1 < scvals.len() && scvals[u1] == d[p];
                let u2 = choose|u2: int| 0 <= u2 < scvals.len() && scvals[u2] == d[q];
                assert(u1 != u2);
                assert(names@[1 + u1]@ == val_str(d[p]) && names@[1 + u2]@ == val_str(d[q]));
                if u1 < u2 {
                    assert(names@[1 + u1]@ != names@[1 + u2]@);
                } else {
                    assert(names@[1 + u2]@ != names@[1 + u1]@);
                }
            }
            if exists|p: int| 0 <= p < d.len() && val_str(#[trigger] d[p]) == t.col_name(
                rki as int,
            ) {
                let p = choose|p: int|
                    0 <= p < d.len() && val_str(#[trigger] d[p]) == t.col_name(rki as int);
                assert(cvals.contains(d[p])) by {
                    assert(d == cvals);
                }
                assert(ckc.contains(d[p])) by {
                    lemma_distinct_firsts_contains(ckc, d[p]);
                }
                let u = choose|u: int| 0 <= u < scvals.len() && scvals[u] == d[p];
                assert(names@[1 + u]@ == val_str(d[p]));
                assert(names@[0]@ != names@[1 + u]@);
            }
        }
        // Row and column counts against the distinct-key lists.
        assert(out.row_count() == distinct_firsts(rkc).len());
        assert(out.col_count() == 1 + distinct_firsts(ckc).len()) by {
            assert(cvals == distinct_firsts(ckc));
            assert(scvals.len() == cvals.len());
        }
        // Witness the sorted column keys for the cell contract.
        assert forall|cc: int, p: int|
            0 <= cc < scvals.len() && 0 <= p < out.row_count() implies #[trigger] out.col_data(
            1 + cc,
        )[p] == SpecValue::Int(pair_total(rkc, ckc, vc, out.col_data(0)[p], scvals[cc])) by {
            assert(out.col_data(1 + cc)[p] == out.columns@[1 + cc].values@[p]@);
        }
        assert forall|cc: int| 0 <= cc < scvals.len() implies #[trigger] out.col_name(1 + cc)
            == val_str(scvals[cc]) && out.col_kind(1 + cc) == ValueKind::Int by {
            assert(out.col_name(1 + cc) == names@[1 + cc]@);
        }
        assert({
            &&& scvals.len() == out.col_count() - 1
            &&& (forall|p: int, q: int|
                0 <= p < q < scvals.len() ==> val_lt(#[trigger] scvals[p], #[trigger] scvals[q]))
            &&& (forall|v: SpecValue| scvals.contains(v) == ckc.contains(v))
            &&& (forall|cc: int|
                0 <= cc < scvals.len() ==> #[trigger] out.col_name(1 + cc) == val_str(scvals[cc])
                    && out.col_kind(1 + cc) == ValueKind::Int)
            &&& (forall|cc: int, p: int|
                0 <= cc < scvals.len() && 0 <= p < out.row_count() ==> #[trigger] out.col_data(
                    1 + cc,
                )[p] == SpecValue::Int(pair_total(rkc, ckc, vc, out.col_data(0)[p], scvals[cc])))
        });
    }
    Ok(out)
}

} // verus!
