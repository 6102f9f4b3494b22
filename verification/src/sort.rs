//! Stable multi-key sorting: a permutation of row positions is computed
//! from an ordered list of (column, direction) keys, comparing key by key
//! and breaking full-key ties by original position, then applied to every
//! column alike.
use vstd::prelude::*;
use crate::value::{val_lt, value_cmp, Cmp, lemma_val_lt_connected, lemma_val_lt_trans, lemma_val_lt_asym};
use crate::table::{Table, TableError};

verus! {

/// One sort key: a column name and a direction.
pub struct SortKey {
    pub column: String,
    pub ascending: bool,
}

/// The resolved form of a key list: (column index, ascending) pairs.
pub open spec fn key_ids(t: Table, keys: Seq<SortKey>) -> Seq<(int, bool)> {
    Seq::new(keys.len(), |k: int| (t.col_id(keys[k].column@), keys[k].ascending))
}

/// Rows `i` and `j` hold equal values in every key column.
pub open spec fn keys_eq(t: Table, ks: Seq<(int, bool)>, i: int, j: int) -> bool
    decreases ks.len(),
{
    if ks.len() == 0 {
        true
    } else {
        t.col_data(ks[0].0)[i] == t.col_data(ks[0].0)[j] && keys_eq(t, ks.drop_first(), i, j)
    }
}

/// Row `i` is strictly before row `j` under the lexicographic key order:
/// the first key whose values differ decides, each key under its own
/// direction.
pub open spec fn lex_lt(t: Table, ks: Seq<(int, bool)>, i: int, j: int) -> bool
    decreases ks.len(),
{
    if ks.len() == 0 {
        false
    } else {
        let a = t.col_data(ks[0].0)[i];
        let b = t.col_data(ks[0].0)[j];
        if a == b {
            lex_lt(t, ks.drop_first(), i, j)
        } else if ks[0].1 {
            val_lt(a, b)
        } else {
            val_lt(b, a)
        }
    }
}

/// The tie-broken row order actually sorted by: the key order, with full-key
/// ties decided by original position. A strict total order on distinct rows,
/// which makes the sorted permutation unique and the sort stable.
pub open spec fn tb_lt(t: Table, ks: Seq<(int, bool)>, i: int, j: int) -> bool {
    lex_lt(t, ks, i, j) || (keys_eq(t, ks, i, j) && i < j)
}

proof fn lemma_lex_connected(t: Table, ks: Seq<(int, bool)>, i: int, j: int)
    ensures
        !lex_lt(t, ks, i, j) && !lex_lt(t, ks, j, i) ==> keys_eq(t, ks, i, j),
        keys_eq(t, ks, i, j) ==> !lex_lt(t, ks, i, j),
        keys_eq(t, ks, i, j) ==> keys_eq(t, ks, j, i),
    decreases ks.len(),
{
    if ks.len() > 0 {
        let a = t.col_data(ks[0].0)[i];
        let b = t.col_data(ks[0].0)[j];
        lemma_val_lt_connected(a, b);
        lemma_lex_connected(t, ks.drop_first(), i, j);
    }
}

proof fn lemma_lex_trans(t: Table, ks: Seq<(int, bool)>, i: int, j: int, k: int)
    ensures
        lex_lt(t, ks, i, j) && lex_lt(t, ks, j, k) ==> lex_lt(t, ks, i, k),
        lex_lt(t, ks, i, j) && keys_eq(t, ks, j, k) ==> lex_lt(t, ks, i, k),
        keys_eq(t, ks, i, j) && lex_lt(t, ks, j, k) ==> lex_lt(t, ks, i, k),
        keys_eq(t, ks, i, j) && keys_eq(t, ks, j, k) ==> keys_eq(t, ks, i, k),
    decreases ks.len(),
{
    if ks.len() > 0 {
        let a = t.col_data(ks[0].0)[i];
        let b = t.col_data(ks[0].0)[j];
        let c = t.col_data(ks[0].0)[k];
        lemma_val_lt_trans(a, b, c);
        lemma_val_lt_trans(c, b, a);
        lemma_val_lt_asym(a, b);
        lemma_val_lt_asym(b, c);
        lemma_val_lt_asym(a, c);
        lemma_val_lt_connected(a, b);
        lemma_val_lt_connected(b, c);
        lemma_val_lt_connected(a, c);
        lemma_lex_trans(t, ks.drop_first(), i, j, k);
    }
}

/// On distinct rows the tie-broken order is total.
proof fn lemma_tb_total(t: Table, ks: Seq<(int, bool)>, i: int, j: int)
    requires
        i != j,
    ensures
        tb_lt(t, ks, i, j) || tb_lt(t, ks, j, i),
{
    lemma_lex_connected(t, ks, i, j);
}

proof fn lemma_tb_trans(t: Table, ks: Seq<(int, bool)>, i: int, j: int, k: int)
    ensures
        tb_lt(t, ks, i, j) && tb_lt(t, ks, j, k) ==> tb_lt(t, ks, i, k),
{
    lemma_lex_trans(t, ks, i, j, k);
}

proof fn lemma_keys_eq_refl(t: Table, ks: Seq<(int, bool)>, i: int)
    ensures
        keys_eq(t, ks, i, i),
    decreases ks.len(),
{
    if ks.len() > 0 {
        lemma_keys_eq_refl(t, ks.drop_first(), i);
    }
}

proof fn lemma_lex_asym(t: Table, ks: Seq<(int, bool)>, i: int, j: int)
    ensures
        lex_lt(t, ks, i, j) ==> !lex_lt(t, ks, j, i),
    decreases ks.len(),
{
    if ks.len() > 0 {
        let a = t.col_data(ks[0].0)[i];
        let b = t.col_data(ks[0].0)[j];
        lemma_val_lt_asym(a, b);
        lemma_val_lt_asym(b, a);
        lemma_lex_asym(t, ks.drop_first(), i, j);
    }
}

/// The tie-broken order never holds in both directions.
proof fn lemma_tb_asym(t: Table, ks: Seq<(int, bool)>, i: int, j: int)
    ensures
        tb_lt(t, ks, i, j) ==> !tb_lt(t, ks, j, i),
{
    lemma_lex_asym(t, ks, i, j);
    lemma_lex_connected(t, ks, i, j);
    lemma_lex_connected(t, ks, j, i);
}

/// The key comparison reads only the key-column values of the two rows:
/// rows of possibly different tables with equal key values compare alike.
proof fn lemma_lex_transfer(
    t1: Table,
    ks1: Seq<(int, bool)>,
    i1: int,
    j1: int,
    t2: Table,
    ks2: Seq<(int, bool)>,
    i2: int,
    j2: int,
)
    requires
        ks1.len() == ks2.len(),
        forall|k: int| 0 <= k < ks1.len() ==> (#[trigger] ks1[k]).1 == ks2[k].1,
        forall|k: int|
            0 <= k < ks1.len() ==> t1.col_data((#[trigger] ks1[k]).0)[i1] == t2.col_data(
                ks2[k].0,
            )[i2],
        forall|k: int|
            0 <= k < ks1.len() ==> t1.col_data((#[trigger] ks1[k]).0)[j1] == t2.col_data(
                ks2[k].0,
            )[j2],
    ensures
        lex_lt(t1, ks1, i1, j1) == lex_lt(t2, ks2, i2, j2),
        keys_eq(t1, ks1, i1, j1) == keys_eq(t2, ks2, i2, j2),
    decreases ks1.len(),
{
    if ks1.len() > 0 {
        assert(ks1[0].1 == ks2[0].1);
        assert(t1.col_data(ks1[0].0)[i1] == t2.col_data(ks2[0].0)[i2]);
        assert(t1.col_data(ks1[0].0)[j1] == t2.col_data(ks2[0].0)[j2]);
        assert forall|k: int| 0 <= k < ks1.drop_first().len() implies (#[trigger] ks1.drop_first()[k]).1
            == ks2.drop_first()[k].1 by {
            assert(ks1.drop_first()[k] == ks1[k + 1]);
        }
        assert forall|k: int| 0 <= k < ks1.drop_first().len() implies t1.col_data(
            (#[trigger] ks1.drop_first()[k]).0,
        )[i1] == t2.col_data(ks2.drop_first()[k].0)[i2] by {
            assert(ks1.drop_first()[k] == ks1[k + 1] && ks2.drop_first()[k] == ks2[k + 1]);
        }
        assert forall|k: int| 0 <= k < ks1.drop_first().len() implies t1.col_data(
            (#[trigger] ks1.drop_first()[k]).0,
        )[j1] == t2.col_data(ks2.drop_first()[k].0)[j2] by {
            assert(ks1.drop_first()[k] == ks1[k + 1] && ks2.drop_first()[k] == ks2[k + 1]);
        }
        lemma_lex_transfer(t1, ks1.drop_first(), i1, j1, t2, ks2.drop_first(), i2, j2);
    }
}

/// Skipping keys whose values agree on both rows does not change the
/// comparison.
proof fn lemma_lex_skip(t: Table, ks: Seq<(int, bool)>, m: int, i: int, j: int)
    requires
        0 <= m <= ks.len(),
        forall|k: int|
            0 <= k < m ==> t.col_data((#[trigger] ks[k]).0)[i] == t.col_data(ks[k].0)[j],
    ensures
        lex_lt(t, ks, i, j) == lex_lt(t, ks.skip(m), i, j),
        keys_eq(t, ks, i, j) == keys_eq(t, ks.skip(m), i, j),
    decreases m,
{
    if m == 0 {
        assert(ks.skip(0) =~= ks);
    } else {
        assert(ks.len() > 0);
        lemma_lex_skip(t, ks.drop_first(), m - 1, i, j);
        assert(ks.drop_first().skip(m - 1) =~= ks.skip(m));
    }
}

/// Three-way comparison of two rows under the resolved key list.
fn row_cmp(t: &Table, kidx: &Vec<(usize, bool)>, i: usize, j: usize) -> (c: Cmp)
    requires
        t.wf(),
        forall|m: int| 0 <= m < kidx@.len() ==> (#[trigger] kidx@[m]).0 < t.col_count(),
        i < t.row_count(),
        j < t.row_count(),
    ensures
        ({
            let ks = kidx@.map_values(|p: (usize, bool)| (p.0 as int, p.1));
            &&& (c == Cmp::Lt) == lex_lt(*t, ks, i as int, j as int)
            &&& (c == Cmp::Eq) == keys_eq(*t, ks, i as int, j as int)
            &&& (c == Cmp::Gt) == lex_lt(*t, ks, j as int, i as int)
        }),
{
    let ghost ks = kidx@.map_values(|p: (usize, bool)| (p.0 as int, p.1));
    let nk = kidx.len();
    let mut m: usize = 0;
    while m < nk
        invariant
            t.wf(),
            nk == kidx@.len(),
            m <= nk,
            ks == kidx@.map_values(|p: (usize, bool)| (p.0 as int, p.1)),
            forall|k: int| 0 <= k < kidx@.len() ==> (#[trigger] kidx@[k]).0 < t.col_count(),
            i < t.row_count(),
            j < t.row_count(),
            forall|k: int|
                0 <= k < m ==> t.col_data((#[trigger] ks[k]).0)[i as int] == t.col_data(
                    ks[k].0,
                )[j as int],
        decreases nk - m,
    {
        let (cidx, asc) = kidx[m];
        let cv = value_cmp(t.value_at(cidx, i), t.value_at(cidx, j));
        if cv != Cmp::Eq {
            proof {
                lemma_lex_skip(*t, ks, m as int, i as int, j as int);
                lemma_lex_skip(*t, ks, m as int, j as int, i as int);
                assert(ks.skip(m as int)[0] == ks[m as int]);
                assert(ks.skip(m as int).len() > 0);
            }
            if asc {
                return cv;
            } else if cv == Cmp::Lt {
                return Cmp::Gt;
            } else {
                return Cmp::Lt;
            }
        }
        m = m + 1;
    }
    proof {
        lemma_lex_skip(*t, ks, nk as int, i as int, j as int);
        lemma_lex_skip(*t, ks, nk as int, j as int, i as int);
        assert(ks.skip(nk as int).len() == 0);
    }
    Cmp::Eq
}

/// Finds the position in `out` before which row `i` belongs: the first
/// position holding a row ordered after `i`.
fn find_pos(t: &Table, kidx: &Vec<(usize, bool)>, out: &Vec<usize>, i: usize) -> (p: usize)
    requires
        t.wf(),
        forall|m: int| 0 <= m < kidx@.len() ==> (#[trigger] kidx@[m]).0 < t.col_count(),
        i < t.row_count(),
        forall|q: int| 0 <= q < out@.len() ==> (#[trigger] out@[q]) < t.row_count(),
        forall|q: int| 0 <= q < out@.len() ==> (#[trigger] out@[q]) != i,
    ensures
        ({
            let ks = kidx@.map_values(|p2: (usize, bool)| (p2.0 as int, p2.1));
            &&& p <= out@.len()
            &&& (forall|q: int| 0 <= q < p ==> tb_lt(*t, ks, (#[trigger] out@[q]) as int, i as int))
            &&& (p < out@.len() ==> tb_lt(*t, ks, i as int, out@[p as int] as int))
        }),
{
    let ghost ks = kidx@.map_values(|p2: (usize, bool)| (p2.0 as int, p2.1));
    let mut p: usize = 0;
    while p < out.len()
        invariant
            t.wf(),
            ks == kidx@.map_values(|p2: (usize, bool)| (p2.0 as int, p2.1)),
            forall|m: int| 0 <= m < kidx@.len() ==> (#[trigger] kidx@[m]).0 < t.col_count(),
            i < t.row_count(),
            forall|q: int| 0 <= q < out@.len() ==> (#[trigger] out@[q]) < t.row_count(),
            forall|q: int| 0 <= q < out@.len() ==> (#[trigger] out@[q]) != i,
            p <= out@.len(),
            forall|q: int| 0 <= q < p ==> tb_lt(*t, ks, (#[trigger] out@[q]) as int, i as int),
        decreases out@.len() - p,
    {
        let c = row_cmp(t, kidx, i, out[p]);
        if c == Cmp::Lt || (c == Cmp::Eq && i < out[p]) {
            return p;
        }
        proof {
            lemma_tb_total(*t, ks, i as int, out@[p as int] as int);
        }
        p = p + 1;
    }
    p
}

/// Computes the sorting permutation: the row positions `0..row_count`
/// arranged by the tie-broken key order.
fn sort_perm(t: &Table, kidx: &Vec<(usize, bool)>) -> (perm: Vec<usize>)
    requires
        t.wf(),
        forall|m: int| 0 <= m < kidx@.len() ==> (#[trigger] kidx@[m]).0 < t.col_count(),
    ensures
        ({
            let ks = kidx@.map_values(|p2: (usize, bool)| (p2.0 as int, p2.1));
            &&& perm@.len() == t.row_count()
            &&& (forall|p: int| 0 <= p < perm@.len() ==> (#[trigger] perm@[p]) < t.row_count())
            &&& (forall|p: int, q: int| 0 <= p < q < perm@.len() ==> perm@[p] != perm@[q])
            &&& (forall|p: int, q: int|
                0 <= p < q < perm@.len() ==> tb_lt(
                    *t,
                    ks,
                    (#[trigger] perm@[p]) as int,
                    (#[trigger] perm@[q]) as int,
                ))
        }),
{
    let ghost ks = kidx@.map_values(|p2: (usize, bool)| (p2.0 as int, p2.1));
    let n = t.num_rows();
    let mut out: Vec<usize> = Vec::new();
    let mut i: usize = 0;
    while i < n
        invariant
            t.wf(),
            ks == kidx@.map_values(|p2: (usize, bool)| (p2.0 as int, p2.1)),
            forall|m: int| 0 <= m < kidx@.len() ==> (#[trigger] kidx@[m]).0 < t.col_count(),
            n == t.row_count(),
            i <= n,
            out@.len() == i,
            forall|p: int| 0 <= p < out@.len() ==> (#[trigger] out@[p]) < i,
            forall|p: int, q: int| 0 <= p < q < out@.len() ==> out@[p] != out@[q],
            forall|p: int, q: int|
                0 <= p < q < out@.len() ==> tb_lt(
                    *t,
                    ks,
                    (#[trigger] out@[p]) as int,
                    (#[trigger] out@[q]) as int,
                ),
        decreases n - i,
    {
        let ghost prev = out@;
        let pos = find_pos(t, kidx, &out, i);
        out.insert(pos, i);
        proof {
            assert(out@ == prev.insert(pos as int, i));
            prev.insert_ensures(pos as int, i);
            assert forall|p: int, q: int| 0 <= p < q < out@.len() implies tb_lt(
                *t,
                ks,
                (#[trigger] out@[p]) as int,
                (#[trigger] out@[q]) as int,
            ) by {
                if q < pos {
                    assert(out@[p] == prev[p] && out@[q] == prev[q]);
                } else if p > pos {
                    assert(out@[p] == prev[p - 1] && out@[q] == prev[q - 1]);
                } else if p == pos && q == pos + 1 {
                    assert(out@[p] == i && out@[q] == prev[pos as int]);
                } else if p == pos {
                    assert(out@[p] == i && out@[q] == prev[q - 1]);
                    lemma_tb_trans(*t, ks, i as int, prev[pos as int] as int, prev[q - 1] as int);
                } else if q == pos {
                    assert(out@[p] == prev[p] && out@[q] == i);
                } else {
                    assert(out@[p] == prev[p] && out@[q] == prev[q - 1]);
                    if q - 1 > pos {
                        lemma_tb_trans(*t, ks, i as int, prev[pos as int] as int, prev[q - 1] as int);
                    }
                    lemma_tb_trans(*t, ks, prev[p] as int, i as int, prev[q - 1] as int);
                }
            }
        }
        i = i + 1;
    }
    out
}

/// A permutation relating the rows of `out` to the rows of `t`: a
/// duplicate-free arrangement of all row positions, with every column of
/// `out` reading through it.
pub open spec fn is_row_perm(t: Table, out: Table, perm: Seq<int>) -> bool {
    &&& perm.len() == t.row_count()
    &&& (forall|p: int| 0 <= p < perm.len() ==> 0 <= #[trigger] perm[p] < t.row_count())
    &&& (forall|p: int, q: int| 0 <= p < q < perm.len() ==> perm[p] != perm[q])
    &&& (forall|c: int, p: int|
        0 <= c < t.col_count() && 0 <= p < perm.len() ==> #[trigger] out.col_data(c)[p]
            == t.col_data(c)[perm[p]])
}

/// The permutation lists the rows in ascending tie-broken key order.
pub open spec fn sorted_perm(t: Table, ks: Seq<(int, bool)>, perm: Seq<int>) -> bool {
    forall|p: int, q: int|
        0 <= p < q < perm.len() ==> tb_lt(t, ks, #[trigger] perm[p], #[trigger] perm[q])
}

/// A duplicate-free, in-range index sequence of full length hits every
/// index: there is a position holding each value of the range.
proof fn lemma_perm_onto(perm: Seq<int>, n: int, j: int)
    requires
        perm.len() == n,
        forall|p: int| 0 <= p < n ==> 0 <= #[trigger] perm[p] < n,
        forall|p: int, q: int| 0 <= p < q < n ==> perm[p] != perm[q],
        0 <= j < n,
    ensures
        perm.contains(j),
{
    vstd::set_lib::lemma_int_range(0, n);
    assert(perm.no_duplicates());
    perm.unique_seq_to_set();
    assert(perm.to_set().subset_of(vstd::set_lib::set_int_range(0, n)));
    if !perm.contains(j) {
        assert(perm.to_set().subset_of(vstd::set_lib::set_int_range(0, n).remove(j)));
        assert(vstd::set_lib::set_int_range(0, n).remove(j).len() == n - 1);
        vstd::set_lib::lemma_len_subset(
            perm.to_set(),
            vstd::set_lib::set_int_range(0, n).remove(j),
        );
    }
}

/// Reading a sequence through a duplicate-free, in-range, full-length
/// index sequence permutes it: the multiset of elements is unchanged.
proof fn lemma_perm_map_multiset<A>(s: Seq<A>, m: Seq<A>, perm: Seq<int>)
    requires
        perm.len() == s.len(),
        m.len() == s.len(),
        forall|p: int| 0 <= p < perm.len() ==> 0 <= #[trigger] perm[p] < s.len(),
        forall|p: int, q: int| 0 <= p < q < perm.len() ==> perm[p] != perm[q],
        forall|p: int| 0 <= p < m.len() ==> #[trigger] m[p] == s[perm[p]],
    ensures
        m.to_multiset() =~= s.to_multiset(),
    decreases s.len(),
{
    broadcast use vstd::seq_lib::group_to_multiset_ensures;

    let n = s.len() as int;
    if n > 0 {
        lemma_perm_onto(perm, n, n - 1);
        let p = choose|p: int| 0 <= p < n && perm[p] == n - 1;
        let m2 = m.remove(p);
        let perm2 = perm.remove(p);
        perm.remove_ensures(p);
        m.remove_ensures(p);
        assert forall|q: int, r: int| 0 <= q < r < perm2.len() implies perm2[q] != perm2[r] by {
            if r < p {
            } else if q >= p {
                assert(perm2[q] == perm[q + 1] && perm2[r] == perm[r + 1]);
            } else {
                assert(perm2[q] == perm[q] && perm2[r] == perm[r + 1]);
            }
        }
        assert forall|q: int| 0 <= q < perm2.len() implies 0 <= #[trigger] perm2[q] < n - 1 by {
            if q < p {
                assert(perm2[q] == perm[q]);
                assert(perm[q] != perm[p]);
            } else {
                assert(perm2[q] == perm[q + 1]);
                assert(perm[q + 1] != perm[p]);
            }
        }
        assert forall|q: int| 0 <= q < m2.len() implies #[trigger] m2[q] == s.drop_last()[perm2[q]] by {
            if q < p {
                assert(m2[q] == m[q] && perm2[q] == perm[q]);
            } else {
                assert(m2[q] == m[q + 1] && perm2[q] == perm[q + 1]);
            }
        }
        lemma_perm_map_multiset(s.drop_last(), m2, perm2);
        assert(s =~= s.drop_last().push(s.last()));
        assert(s.to_multiset() =~= s.drop_last().to_multiset().insert(s.last()));
        assert(m2.to_multiset() =~= m.to_multiset().remove(m[p]));
        assert(m[p] == s.last());
        assert(m.to_multiset().count(m[p]) > 0) by {
            assert(m.contains(m[p]));
        }
        assert forall|x: A| m.to_multiset().count(x) == s.to_multiset().count(x) by {
            if x == m[p] {
                assert(m.to_multiset().remove(m[p]).count(x) == m.to_multiset().count(x) - 1);
            } else {
                assert(m.to_multiset().remove(m[p]).count(x) == m.to_multiset().count(x));
            }
        }
    }
}

/// Two index sequences holding the same values, each strictly ascending
/// under the tie-broken order, are identical: the sorted arrangement is
/// unique.
proof fn lemma_sorted_perm_unique(t: Table, ks: Seq<(int, bool)>, a: Seq<int>, b: Seq<int>)
    requires
        a.len() == b.len(),
        forall|p: int, q: int| 0 <= p < q < a.len() ==> tb_lt(t, ks, #[trigger] a[p], #[trigger] a[q]),
        forall|p: int, q: int| 0 <= p < q < b.len() ==> tb_lt(t, ks, #[trigger] b[p], #[trigger] b[q]),
        forall|j: int| a.contains(j) == b.contains(j),
    ensures
        a =~= b,
    decreases a.len(),
{
    if a.len() > 0 {
        assert(a.contains(a[0]));
        assert(b.contains(b[0]));
        let i = choose|i: int| 0 <= i < b.len() && b[i] == a[0];
        let j = choose|j: int| 0 <= j < a.len() && a[j] == b[0];
        if a[0] != b[0] {
            assert(i > 0 && j > 0);
            assert(tb_lt(t, ks, b[0], b[i]));
            assert(tb_lt(t, ks, a[0], a[j]));
            lemma_tb_asym(t, ks, a[0], b[0]);
            assert(false);
        }
        let a2 = a.drop_first();
        let b2 = b.drop_first();
        assert forall|p: int, q: int| 0 <= p < q < a2.len() implies tb_lt(
            t,
            ks,
            #[trigger] a2[p],
            #[trigger] a2[q],
        ) by {
            assert(a2[p] == a[p + 1] && a2[q] == a[q + 1]);
        }
        assert forall|p: int, q: int| 0 <= p < q < b2.len() implies tb_lt(
            t,
            ks,
            #[trigger] b2[p],
            #[trigger] b2[q],
        ) by {
            assert(b2[p] == b[p + 1] && b2[q] == b[q + 1]);
        }
        // Strict sortedness makes both sequences duplicate-free, so the
        // tails hold exactly the values other than the shared head.
        assert forall|x: int| a2.contains(x) == b2.contains(x) by {
            lemma_keys_eq_refl(t, ks, a[0]);
            lemma_lex_connected(t, ks, a[0], a[0]);
            if a2.contains(x) {
                let p = choose|p: int| 0 <= p < a2.len() && a2[p] == x;
                assert(a[p + 1] == x);
                assert(tb_lt(t, ks, a[0], x));
                assert(x != a[0]);
                assert(a.contains(x));
                assert(b.contains(x));
                let q = choose|q: int| 0 <= q < b.len() && b[q] == x;
                assert(q > 0);
                assert(b2[q - 1] == x);
            }
            if b2.contains(x) {
                let p = choose|p: int| 0 <= p < b2.len() && b2[p] == x;
                assert(b[p + 1] == x);
                assert(tb_lt(t, ks, b[0], x));
                assert(x != b[0]);
                assert(b.contains(x));
                assert(a.contains(x));
                let q = choose|q: int| 0 <= q < a.len() && a[q] == x;
                assert(q > 0);
                assert(a2[q - 1] == x);
            }
        }
        lemma_sorted_perm_unique(t, ks, a2, b2);
        assert forall|p: int| 0 <= p < a.len() implies a[p] == b[p] by {
            if p > 0 {
                assert(a2[p - 1] == b2[p - 1]);
            }
        }
    }
}

/// Sorting twice with the same keys changes nothing: a table that is
/// already a sorted output of the keys sorts to itself, column for column
/// and row for row.
pub proof fn lemma_sort_idempotent(t: Table, keys: Seq<SortKey>, out1: Table, out2: Table)
    requires
        t.wf(),
        forall|k: int| 0 <= k < keys.len() ==> t.has_col((#[trigger] keys[k]).column@),
        sorted_output(t, keys, out1),
        sorted_output(out1, keys, out2),
    ensures
        forall|c: int, p: int|
            0 <= c < out1.col_count() && 0 <= p < out1.row_count() ==> #[trigger] out2.col_data(
                c,
            )[p] == out1.col_data(c)[p],
{
    let n = t.row_count();
    let ks1 = key_ids(t, keys);
    let ks2 = key_ids(out1, keys);
    let perm1 = choose|perm: Seq<int>| is_row_perm(t, out1, perm) && sorted_perm(t, ks1, perm);
    let perm2 = choose|perm: Seq<int>|
        is_row_perm(out1, out2, perm) && sorted_perm(out1, ks2, perm);
    // The key columns resolve to the same indices in both tables.
    assert forall|k: int| 0 <= k < keys.len() implies #[trigger] ks2[k] == ks1[k] by {
        let c = t.col_id(keys[k].column@);
        assert(0 <= c < t.col_count() && t.col_name(c) == keys[k].column@);
        assert(out1.col_name(c) == keys[k].column@);
        out1.lemma_col_id(keys[k].column@, c);
    }
    assert(ks2 =~= ks1);
    let ghost identity = Seq::new(n as nat, |p: int| p);
    // Rows of the sorted table carry the key values of their source rows.
    assert forall|p: int, q: int| 0 <= p < q < n implies tb_lt(out1, ks1, p, q) by {
        assert forall|k: int| 0 <= k < ks1.len() implies out1.col_data((#[trigger] ks1[k]).0)[p]
            == t.col_data(ks1[k].0)[perm1[p]] by {
            let c = t.col_id(keys[k].column@);
            assert(0 <= c < t.col_count());
        }
        assert forall|k: int| 0 <= k < ks1.len() implies out1.col_data((#[trigger] ks1[k]).0)[q]
            == t.col_data(ks1[k].0)[perm1[q]] by {
            let c = t.col_id(keys[k].column@);
            assert(0 <= c < t.col_count());
        }
        lemma_lex_transfer(out1, ks1, p, q, t, ks1, perm1[p], perm1[q]);
        assert(tb_lt(t, ks1, perm1[p], perm1[q]));
        if !lex_lt(t, ks1, perm1[p], perm1[q]) {
            assert(keys_eq(t, ks1, perm1[p], perm1[q]) && perm1[p] < perm1[q]);
            assert(keys_eq(out1, ks1, p, q));
        }
    }
    // Both the identity and the second sorting permutation are sorted
    // arrangements of the same positions, so they coincide.
    assert forall|j: int| perm2.contains(j) == identity.contains(j) by {
        if perm2.contains(j) {
            let p = choose|p: int| 0 <= p < perm2.len() && perm2[p] == j;
            assert(identity[j] == j);
        }
        if identity.contains(j) {
            let p = choose|p: int| 0 <= p < identity.len() && identity[p] == j;
            assert(0 <= j < n);
            lemma_perm_onto(perm2, n, j);
        }
    }
    assert forall|p: int, q: int| 0 <= p < q < perm2.len() implies tb_lt(
        out1,
        ks1,
        #[trigger] perm2[p],
        #[trigger] perm2[q],
    ) by {
        assert(tb_lt(out1, ks2, perm2[p], perm2[q]));
    }
    assert forall|p: int, q: int| 0 <= p < q < identity.len() implies tb_lt(
        out1,
        ks1,
        #[trigger] identity[p],
        #[trigger] identity[q],
    ) by {
        assert(tb_lt(out1, ks1, p, q));
    }
    lemma_sorted_perm_unique(out1, ks1, perm2, identity);
    assert forall|c: int, p: int|
        0 <= c < out1.col_count() && 0 <= p < out1.row_count() implies #[trigger] out2.col_data(
        c,
    )[p] == out1.col_data(c)[p] by {
        assert(perm2[p] == p);
        assert(out2.col_data(c)[p] == out1.col_data(c)[perm2[p]]);
    }
}

/// Sorting permutes the rows: the output holds exactly the input's rows,
/// as a multiset, whenever a row permutation relates the two tables.
pub proof fn lemma_row_perm_multiset(t: Table, out: Table, perm: Seq<int>)
    requires
        t.same_schema(out),
        out.row_count() == t.row_count(),
        is_row_perm(t, out, perm),
    ensures
        out.rows().to_multiset() =~= t.rows().to_multiset(),
{
    assert forall|p: int| 0 <= p < out.rows().len() implies #[trigger] out.rows()[p] == t.rows()[perm[p]] by {
        assert(out.spec_row(p) =~= t.spec_row(perm[p]));
    }
    lemma_perm_map_multiset(t.rows(), out.rows(), perm);
}

/// What a successful sort returns: a well-formed table of the same schema
/// and row count, whose rows are the input's rows arranged by the unique
/// tie-broken sorting permutation.
pub open spec fn sorted_output(t: Table, keys: Seq<SortKey>, out: Table) -> bool {
    &&& out.wf()
    &&& t.same_schema(out)
    &&& out.row_count() == t.row_count()
    &&& exists|perm: Seq<int>|
        is_row_perm(t, out, perm) && sorted_perm(t, key_ids(t, keys), perm)
}

/// Sorts the table by the given keys, first key primary, each key under its
/// own direction, ties preserving original row order (stable).
///
/// The output holds the same rows as the input, rearranged by a unique
/// permutation that `is_row_perm` and `sorted_perm` pin down exactly.
pub fn sort(t: &Table, keys: &Vec<SortKey>) -> (r: Result<Table, TableError>)
    requires
        t.wf(),
    ensures
        (r matches Err(e) && e == TableError::EmptySortKeys) <==> keys@.len() == 0,
        (r matches Err(e) && e == TableError::ColumnNotFound) <==> (keys@.len() > 0 && exists|k: int|
            0 <= k < keys@.len() && !t.has_col((#[trigger] keys@[k]).column@)),
        r is Ok <==> (keys@.len() > 0 && forall|k: int|
            0 <= k < keys@.len() ==> t.has_col((#[trigger] keys@[k]).column@)),
        r matches Ok(out) ==> sorted_output(*t, keys@, out),
        r matches Ok(out) ==> out.rows().to_multiset() == t.rows().to_multiset(),
{
    if keys.len() == 0 {
        return Err(TableError::EmptySortKeys);
    }
    let mut kidx: Vec<(usize, bool)> = Vec::new();
    let mut k: usize = 0;
    while k < keys.len()
        invariant
            t.wf(),
            k == kidx@.len(),
            k <= keys@.len(),
            forall|m: int| 0 <= m < k ==> (#[trigger] kidx@[m]).0 < t.col_count(),
            forall|m: int| 0 <= m < k ==> t.col_id(keys@[m].column@) == (#[trigger] kidx@[m]).0 as int,
            forall|m: int| 0 <= m < k ==> (#[trigger] kidx@[m]).1 == keys@[m].ascending,
            forall|m: int| 0 <= m < k ==> t.has_col((#[trigger] keys@[m]).column@),
        decreases keys@.len() - k,
    {
        match t.find_column(&keys[k].column) {
            Some(c) => {
                kidx.push((c, keys[k].ascending));
                proof {
                    assert(kidx@[k as int].0 == c && kidx@[k as int].1 == keys@[k as int].ascending);
                }
            },
            None => {
                return Err(TableError::ColumnNotFound);
            },
        }
        k = k + 1;
    }
    proof {
        assert forall|kk: int| 0 <= kk < keys@.len() implies t.has_col(
            (#[trigger] keys@[kk]).column@,
        ) by {
            assert(kidx@[kk].0 < t.col_count());
        }
    }
    let perm = sort_perm(t, &kidx);
    let out = t.take_rows(&perm);
    proof {
        let ks = kidx@.map_values(|p2: (usize, bool)| (p2.0 as int, p2.1));
        assert(ks =~= key_ids(*t, keys@));
        let permi = perm@.map_values(|u: usize| u as int);
        assert(permi.len() == t.row_count());
        assert(forall|p: int| 0 <= p < permi.len() ==> #[trigger] permi[p] == perm@[p] as int);
        if t.col_count() == 0 {
            assert(t.row_count() == 0);
            assert(out.row_count() == 0);
        }
        assert(is_row_perm(*t, out, permi));
        assert(sorted_perm(*t, key_ids(*t, keys@), permi));
        assert(exists|perm: Seq<int>|
            is_row_perm(*t, out, perm) && sorted_perm(*t, key_ids(*t, keys@), perm));
        assert(sorted_output(*t, keys@, out));
        lemma_row_perm_multiset(*t, out, permi);
    }
    Ok(out)
}

} // verus!
