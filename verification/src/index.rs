//! A point-lookup index over one column: each distinct value maps to the
//! ordered list of row positions holding it, built in one pass and
//! read-only afterwards.
use vstd::prelude::*;
use crate::value::{Value, SpecValue};
use crate::column::Column;
use crate::group::find_value;

verus! {

/// The positions in `[0, n)` where `s` holds `v`, ascending.
pub open spec fn occurrences_upto(s: Seq<SpecValue>, v: SpecValue, n: int) -> Seq<int>
    decreases n,
{
    if n <= 0 {
        Seq::empty()
    } else if s[n - 1] == v {
        occurrences_upto(s, v, n - 1).push(n - 1)
    } else {
        occurrences_upto(s, v, n - 1)
    }
}

/// All positions where `s` holds `v`, in original row order.
pub open spec fn occurrences(s: Seq<SpecValue>, v: SpecValue) -> Seq<int> {
    occurrences_upto(s, v, s.len() as int)
}

/// What an occurrence list is: in range, strictly ascending, hitting `v`
/// exactly, and complete.
pub proof fn lemma_occurrences_upto_props(s: Seq<SpecValue>, v: SpecValue, n: int)
    ensures
        forall|p: int|
            0 <= p < occurrences_upto(s, v, n).len() ==> 0 <= #[trigger] occurrences_upto(
                s,
                v,
                n,
            )[p] < n,
        forall|p: int, q: int|
            0 <= p < q < occurrences_upto(s, v, n).len() ==> occurrences_upto(s, v, n)[p]
                < occurrences_upto(s, v, n)[q],
        forall|p: int|
            0 <= p < occurrences_upto(s, v, n).len() ==> s[#[trigger] occurrences_upto(
                s,
                v,
                n,
            )[p]] == v,
        forall|i: int| 0 <= i < n && s[i] == v ==> occurrences_upto(s, v, n).contains(i),
    decreases n,
{
    if n > 0 {
        lemma_occurrences_upto_props(s, v, n - 1);
        let prev = occurrences_upto(s, v, n - 1);
        let cur = occurrences_upto(s, v, n);
        assert forall|i: int| 0 <= i < n && s[i] == v implies cur.contains(i) by {
            if i < n - 1 {
                let p = choose|p: int| 0 <= p < prev.len() && prev[p] == i;
                assert(cur[p] == i);
            } else {
                assert(cur[cur.len() - 1] == i);
            }
        }
    }
}

/// A value absent from the column occurs nowhere.
proof fn lemma_occurrences_absent(s: Seq<SpecValue>, v: SpecValue, n: int)
    requires
        forall|i: int| 0 <= i < n ==> s[i] != v,
    ensures
        occurrences_upto(s, v, n).len() == 0,
    decreases n,
{
    if n > 0 {
        lemma_occurrences_absent(s, v, n - 1);
    }
}

/// Whether some entry of the key list models this value.
pub open spec fn listed(keys: Seq<Value>, v: SpecValue) -> bool {
    exists|k: int| 0 <= k < keys.len() && (#[trigger] keys[k]@) == v
}

/// An index over one column: distinct values beside the ordered positions
/// holding them, with the indexed column's model kept alongside.
pub struct ColumnIndex {
    pub keys: Vec<Value>,
    pub buckets: Vec<Vec<usize>>,
    pub source: Ghost<Seq<SpecValue>>,
}

impl ColumnIndex {
    /// Whether some key models this value.
    pub open spec fn has_key(self, v: SpecValue) -> bool {
        exists|k: int| 0 <= k < self.keys@.len() && (#[trigger] self.keys@[k]@) == v
    }

    /// Well-formed: one bucket per distinct key, each bucket exactly the
    /// key's occurrence list, and every column value among the keys.
    pub open spec fn wf(self) -> bool {
        &&& self.keys@.len() == self.buckets@.len()
        &&& (forall|p: int, q: int|
            0 <= p < q < self.keys@.len() ==> (#[trigger] self.keys@[p]@) != (#[trigger] self.keys@[q]@))
        &&& (forall|k: int|
            0 <= k < self.keys@.len() ==> (#[trigger] self.buckets@[k])@.map_values(
                |u: usize| u as int,
            ) == occurrences(self.source@, self.keys@[k]@))
        &&& (forall|i: int| 0 <= i < self.source@.len() ==> self.has_key(#[trigger] self.source@[i]))
    }

    /// The ordered row positions where the indexed column holds `v`; empty
    /// when the value never occurs.
    pub fn lookup(&self, v: &Value) -> (r: Vec<usize>)
        requires
            self.wf(),
        ensures
            r@.map_values(|u: usize| u as int) == occurrences(self.source@, v@),
    {
        match find_value(&self.keys, v) {
            Some(k) => {
                let bucket = &self.buckets[k];
                let mut out: Vec<usize> = Vec::new();
                let mut p: usize = 0;
                while p < bucket.len()
                    invariant
                        p <= bucket@.len(),
                        out@ == bucket@.take(p as int),
                    decreases bucket@.len() - p,
                {
                    out.push(bucket[p]);
                    proof {
                        assert(out@ =~= bucket@.take(p + 1));
                    }
                    p = p + 1;
                }
                proof {
                    assert(out@ =~= bucket@);
                }
                out
            },
            None => {
                proof {
                    lemma_occurrences_absent(self.source@, v@, self.source@.len() as int);
                    assert(Seq::<usize>::empty().map_values(|u: usize| u as int)
                        =~= occurrences(self.source@, v@));
                }
                Vec::new()
            },
        }
    }
}

/// Builds an index over the column in one pass: each row position is
/// appended to the bucket of its value, so buckets keep original row order.
pub fn build_index(col: &Column) -> (idx: ColumnIndex)
    ensures
        idx.wf(),
        idx.source@ == col.data(),
{
    let ghost s = col.data();
    let n = col.len();
    let mut keys: Vec<Value> = Vec::new();
    let mut buckets: Vec<Vec<usize>> = Vec::new();
    let mut i: usize = 0;
    while i < n
        invariant
            n == s.len(),
            s == col.data(),
            i <= n,
            keys@.len() == buckets@.len(),
            forall|p: int, q: int| 0 <= p < q < keys@.len() ==> keys@[p]@ != keys@[q]@,
            forall|k: int|
                0 <= k < keys@.len() ==> (#[trigger] buckets@[k])@.map_values(|u: usize| u as int)
                    == occurrences_upto(s, keys@[k]@, i as int),
            forall|j: int| 0 <= j < i ==> listed(keys@, #[trigger] s[j]),
        decreases n - i,
    {
        let v = col.get(i);
        match find_value(&keys, v) {
            Some(k) => {
                let ghost oldb = buckets@[k as int]@;
                buckets[k].push(i);
                proof {
                    assert(buckets@[k as int]@ == oldb.push(i));
                    assert forall|q: int| 0 <= q < keys@.len() implies (#[trigger] buckets@[q])@
                        .map_values(|u: usize| u as int) == occurrences_upto(
                        s,
                        keys@[q]@,
                        i + 1,
                    ) by {
                        if q == k {
                            assert(buckets@[q]@.map_values(|u: usize| u as int) =~= oldb.map_values(
                                |u: usize| u as int,
                            ).push(i as int));
                        } else {
                            assert(keys@[q]@ != keys@[k as int]@);
                            assert(s[i as int] != keys@[q]@);
                        }
                    }
                    assert(listed(keys@, s[i as int]));
                }
            },
            None => {
                let ghost oldkeys = keys@;
                keys.push(v.clone());
                let mut b: Vec<usize> = Vec::new();
                b.push(i);
                buckets.push(b);
                proof {
                    assert forall|q: int| 0 <= q < keys@.len() implies (#[trigger] buckets@[q])@
                        .map_values(|u: usize| u as int) == occurrences_upto(
                        s,
                        keys@[q]@,
                        i + 1,
                    ) by {
                        if q < keys@.len() - 1 {
                            assert(keys@[q]@ != s[i as int]);
                        } else {
                            assert(buckets@[q]@ =~= seq![i]);
                            assert(buckets@[q]@.map_values(|u: usize| u as int) =~= seq![i as int]);
                            lemma_occurrences_absent(s, keys@[q]@, i as int);
                            assert(occurrences_upto(s, keys@[q]@, i + 1) =~= seq![i as int]);
                        }
                    }
                    assert(keys@[keys@.len() - 1]@ == s[i as int]);
                    assert(listed(keys@, s[i as int]));
                    assert forall|j: int| 0 <= j < i implies listed(keys@, #[trigger] s[j]) by {
                        let k2 = choose|k2: int|
                            0 <= k2 < oldkeys.len() && (#[trigger] oldkeys[k2]@) == s[j];
                        assert(keys@[k2]@ == s[j]);
                    }
                }
            },
        }
        i = i + 1;
    }
    let ghost gkeys = keys@;
    let idx = ColumnIndex { keys, buckets, source: Ghost(s) };
    proof {
        assert forall|j: int| 0 <= j < idx.source@.len() implies idx.has_key(
            #[trigger] idx.source@[j],
        ) by {
            assert(listed(gkeys, s[j]));
            let k = choose|k: int| 0 <= k < gkeys.len() && (#[trigger] gkeys[k]@) == s[j];
            assert(idx.keys@[k]@ == s[j]);
        }
        assert(idx.wf());
    }
    idx
}

} // verus!
