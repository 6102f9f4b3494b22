//! Paged views over a table: an optional single-key sort over the full
//! dataset, then the requested page's row range, clamped to the rows
//! available, together with the total row and page counts.
use vstd::prelude::*;
use crate::table::{Table, TableError};
use crate::sort::{SortKey, sorted_output, sort};

verus! {

/// The number of pages `total` rows fill at `per` rows each, rounding the
/// last partial page up.
pub open spec fn ceil_div(total: int, per: int) -> int {
    total / per + if total % per != 0 {
        1int
    } else {
        0int
    }
}

/// The first row of the requested page, clamped to the row count.
pub open spec fn page_start(total: int, page: int, per: int) -> int {
    if (page - 1) * per > total {
        total
    } else {
        (page - 1) * per
    }
}

/// The number of rows on the requested page.
pub open spec fn page_len(total: int, page: int, per: int) -> int {
    if page_start(total, page, per) + per > total {
        total - page_start(total, page, per)
    } else {
        per
    }
}

/// A page number or size below one is read as one.
pub open spec fn clamp_one(x: int) -> int {
    if x < 1 {
        1int
    } else {
        x
    }
}

/// What taking a page leaves: the same schema, and exactly the clamped
/// window of the source's rows.
pub open spec fn page_post(src: Table, out: Table, page: int, per: int) -> bool {
    let total = src.row_count();
    let start = page_start(total, clamp_one(page), clamp_one(per));
    let len = page_len(total, clamp_one(page), clamp_one(per));
    &&& out.wf()
    &&& src.same_schema(out)
    &&& (src.col_count() > 0 ==> out.row_count() == len)
    &&& (forall|c: int, p: int|
        0 <= c < src.col_count() && 0 <= p < out.row_count() ==> #[trigger] out.col_data(c)[p]
            == src.col_data(c)[start + p])
}

/// Takes the page's row range `[(page-1)*per, page*per)` of the table,
/// clamped to the available rows, and reports the total row and page counts.
pub fn page_of(t: &Table, page_number: usize, items_per_page: usize) -> (r: (Table, usize, usize))
    requires
        t.wf(),
    ensures
        page_post(*t, r.0, page_number as int, items_per_page as int),
        r.1 == t.row_count(),
        r.2 == ceil_div(t.row_count(), clamp_one(items_per_page as int)),
{
    let page: usize = if page_number < 1 {
        1
    } else {
        page_number
    };
    let per: usize = if items_per_page < 1 {
        1
    } else {
        items_per_page
    };
    let n = t.num_rows();
    let start: usize = match (page - 1).checked_mul(per) {
        Some(s) => {
            if s > n {
                n
            } else {
                s
            }
        },
        None => n,
    };
    let len: usize = if per > n - start {
        n - start
    } else {
        per
    };
    let mut idx: Vec<usize> = Vec::new();
    let mut p: usize = 0;
    while p < len
        invariant
            start + len <= n,
            p <= len,
            idx@.len() == p,
            forall|q: int| 0 <= q < p ==> (#[trigger] idx@[q]) == start + q,
        decreases len - p,
    {
        proof {
            assert(start + p < n);
        }
        idx.push(start + p);
        p = p + 1;
    }
    let out = t.take_rows(&idx);
    let pages: usize = if n % per != 0 {
        proof {
            assert(n as int / per as int + 1 <= n as int) by (nonlinear_arith)
                requires
                    n as int % per as int != 0,
                    per >= 1,
            ;
        }
        n / per + 1
    } else {
        n / per
    };
    proof {
        assert(page as int == clamp_one(page_number as int));
        assert(per as int == clamp_one(items_per_page as int));
        assert(start as int == page_start(n as int, page as int, per as int)) by {
            if (page - 1) * (per as int) > usize::MAX {
                assert((page - 1) * (per as int) > n);
            }
        }
        assert(len as int == page_len(n as int, page as int, per as int));
    }
    (out, n, pages)
}

/// Serves a remote view request: sorts the full dataset when a sort key is
/// given, then takes the requested page of the result, reporting the full
/// dataset's row count and the total page count beside the page itself.
/// Fails only when the sort key names an absent column.
pub fn view_page(
    t: &Table,
    sort_key: &Option<SortKey>,
    page_number: usize,
    items_per_page: usize,
) -> (r: Result<(Table, usize, usize), TableError>)
    requires
        t.wf(),
    ensures
        r is Err <==> (sort_key matches Some(k) && !t.has_col(k.column@)),
        r matches Err(e) ==> e == TableError::ColumnNotFound,
        r matches Ok(pr) ==> (match *sort_key {
            Option::None => page_post(*t, pr.0, page_number as int, items_per_page as int) && pr.1
                == t.row_count() && pr.2 == ceil_div(
                t.row_count(),
                clamp_one(items_per_page as int),
            ),
            Option::Some(k) => exists|ks: Seq<SortKey>, mid: Table|
                {
                    &&& ks.len() == 1
                    &&& ks[0].column@ == k.column@
                    &&& ks[0].ascending == k.ascending
                    &&& sorted_output(*t, ks, mid)
                    &&& page_post(mid, pr.0, page_number as int, items_per_page as int)
                    &&& pr.1 == t.row_count()
                    &&& pr.2 == ceil_div(t.row_count(), clamp_one(items_per_page as int))
                },
        }),
{
    match sort_key {
        None => Ok(page_of(t, page_number, items_per_page)),
        Some(k) => {
            let mut keys: Vec<SortKey> = Vec::new();
            keys.push(SortKey { column: k.column.clone(), ascending: k.ascending });
            match sort(t, &keys) {
                Ok(mid) => {
                    let pr = page_of(&mid, page_number, items_per_page);
                    proof {
                        assert(keys@.len() == 1 && keys@[0].column@ == k.column@ && keys@[0].ascending
                            == k.ascending);
                        assert(sorted_output(*t, keys@, mid));
                        assert(page_post(mid, pr.0, page_number as int, items_per_page as int));
                        assert(mid.row_count() == t.row_count());
                    }
                    Ok(pr)
                },
                Err(_e) => Err(TableError::ColumnNotFound),
            }
        },
    }
}

} // verus!
