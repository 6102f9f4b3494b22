use columnar::column::{Column, ColumnBuilder};
use columnar::filter::{filter, CmpOp, Condition};
use columnar::group::group_sum;
use columnar::index::build_index;
use columnar::paging::{page_of, view_page};
use columnar::pivot::pivot;
use columnar::slice::slice;
use columnar::sort::{sort, SortKey};
use columnar::table::{Table, TableError};
use columnar::text::value_to_string;
use columnar::value::{value_cmp, value_eq, Cmp, Value, ValueKind};

fn str_col(name: &str, vals: &[&str]) -> Column {
    Column::from_values(
        name.to_string(),
        ValueKind::Str,
        vals.iter().map(|s| Value::Str(s.to_string())).collect(),
    )
    .unwrap()
}

fn int_col(name: &str, vals: &[i64]) -> Column {
    Column::from_values(
        name.to_string(),
        ValueKind::Int,
        vals.iter().map(|n| Value::Int(*n)).collect(),
    )
    .unwrap()
}

fn sales_table() -> Table {
    // The demo dataset: regions, products and sales figures.
    Table::new(vec![
        int_col("id", &[1, 2, 3, 4, 5, 6, 7, 8]),
        str_col("region", &["US", "US", "UK", "US", "UK", "EU", "EU", "US"]),
        str_col("product", &["A", "B", "A", "A", "B", "A", "B", "B"]),
        int_col("sales", &[100, 200, 150, 300, 120, 80, 220, 110]),
    ])
    .unwrap()
}

fn col_ints(t: &Table, c: usize) -> Vec<i64> {
    (0..t.num_rows())
        .map(|i| match t.column(c).get(i) {
            Value::Int(n) => *n,
            other => panic!("expected an integer, got {:?}", other),
        })
        .collect()
}

fn col_strs(t: &Table, c: usize) -> Vec<String> {
    (0..t.num_rows())
        .map(|i| match t.column(c).get(i) {
            Value::Str(s) => s.clone(),
            other => panic!("expected a string, got {:?}", other),
        })
        .collect()
}

#[test]
fn builder_appends_in_order() {
    let mut b = ColumnBuilder::new("xs".to_string(), ValueKind::Int);
    b.append(Value::Int(7));
    b.append(Value::Int(-3));
    let c = b.finish();
    assert_eq!(c.len(), 2);
    assert_eq!(*c.get(0), Value::Int(7));
    assert_eq!(*c.get(1), Value::Int(-3));
    assert_eq!(c.name(), "xs");
}

#[test]
fn from_values_rejects_wrong_kind() {
    let r = Column::from_values(
        "xs".to_string(),
        ValueKind::Int,
        vec![Value::Int(1), Value::Bool(true)],
    );
    assert_eq!(r.unwrap_err(), TableError::TypeMismatch);
}

#[test]
fn table_rejects_unequal_lengths() {
    let r = Table::new(vec![int_col("a", &[1, 2]), int_col("b", &[1])]);
    assert_eq!(r.unwrap_err(), TableError::LengthMismatch);
}

#[test]
fn table_rejects_duplicate_names() {
    let r = Table::new(vec![int_col("a", &[1]), int_col("a", &[2])]);
    assert_eq!(r.unwrap_err(), TableError::DuplicateColumnName);
}

#[test]
fn value_order_is_total() {
    assert_eq!(value_cmp(&Value::Int(1), &Value::Int(2)), Cmp::Lt);
    assert_eq!(
        value_cmp(&Value::Str("ab".into()), &Value::Str("b".into())),
        Cmp::Lt
    );
    assert_eq!(
        value_cmp(&Value::Str("abc".into()), &Value::Str("ab".into())),
        Cmp::Gt
    );
    assert_eq!(value_cmp(&Value::Bool(false), &Value::Bool(true)), Cmp::Lt);
    assert!(value_eq(&Value::Str("x".into()), &Value::Str("x".into())));
    assert!(!value_eq(&Value::Int(1), &Value::Str("1".into())));
}

#[test]
fn filter_keeps_matching_rows_in_order() {
    // region == "US" && sales > 150
    let t = sales_table();
    let conds = vec![
        Condition {
            column: "region".to_string(),
            op: CmpOp::Eq,
            value: Value::Str("US".to_string()),
        },
        Condition {
            column: "sales".to_string(),
            op: CmpOp::Gt,
            value: Value::Int(150),
        },
    ];
    let out = filter(&t, &conds).unwrap();
    assert_eq!(out.num_rows(), 2);
    assert!(out.num_rows() <= t.num_rows());
    assert_eq!(col_ints(&out, 0), vec![2, 4]);
    assert_eq!(col_ints(&out, 3), vec![200, 300]);
}

#[test]
fn filter_unknown_column_fails_before_scanning() {
    let t = sales_table();
    let conds = vec![Condition {
        column: "missing".to_string(),
        op: CmpOp::Eq,
        value: Value::Int(0),
    }];
    assert_eq!(filter(&t, &conds).unwrap_err(), TableError::ColumnNotFound);
}

#[test]
fn filter_kind_mismatch_fails() {
    let t = sales_table();
    let conds = vec![Condition {
        column: "region".to_string(),
        op: CmpOp::Eq,
        value: Value::Int(1),
    }];
    assert_eq!(filter(&t, &conds).unwrap_err(), TableError::TypeMismatch);
}

#[test]
fn sort_two_keys_matches_expected_order() {
    // Region ascending, sales descending, as in the stated scenario.
    let t = Table::new(vec![
        str_col("region", &["US", "US", "UK", "US"]),
        int_col("sales", &[100, 200, 150, 300]),
    ])
    .unwrap();
    let keys = vec![
        SortKey {
            column: "region".to_string(),
            ascending: true,
        },
        SortKey {
            column: "sales".to_string(),
            ascending: false,
        },
    ];
    let out = sort(&t, &keys).unwrap();
    assert_eq!(col_strs(&out, 0), vec!["UK", "US", "US", "US"]);
    assert_eq!(col_ints(&out, 1), vec![150, 300, 200, 100]);
}

#[test]
fn sort_is_stable_on_ties() {
    let t = Table::new(vec![
        str_col("k", &["b", "a", "b", "a"]),
        int_col("id", &[1, 2, 3, 4]),
    ])
    .unwrap();
    let keys = vec![SortKey {
        column: "k".to_string(),
        ascending: true,
    }];
    let out = sort(&t, &keys).unwrap();
    // Equal keys keep their original relative order.
    assert_eq!(col_ints(&out, 1), vec![2, 4, 1, 3]);
}

#[test]
fn sort_twice_is_idempotent() {
    let t = sales_table();
    let keys = vec![
        SortKey {
            column: "region".to_string(),
            ascending: true,
        },
        SortKey {
            column: "sales".to_string(),
            ascending: false,
        },
    ];
    let once = sort(&t, &keys).unwrap();
    let twice = sort(&once, &keys).unwrap();
    assert_eq!(col_ints(&once, 0), col_ints(&twice, 0));
    assert_eq!(col_strs(&once, 1), col_strs(&twice, 1));
    assert_eq!(col_strs(&once, 2), col_strs(&twice, 2));
    assert_eq!(col_ints(&once, 3), col_ints(&twice, 3));
}

#[test]
fn sort_reversed_directions_reverses_blocks() {
    let t = Table::new(vec![
        str_col("k", &["b", "a", "b", "a"]),
        int_col("id", &[1, 2, 3, 4]),
    ])
    .unwrap();
    let asc = sort(
        &t,
        &vec![SortKey {
            column: "k".to_string(),
            ascending: true,
        }],
    )
    .unwrap();
    let desc = sort(
        &t,
        &vec![SortKey {
            column: "k".to_string(),
            ascending: false,
        }],
    )
    .unwrap();
    // Key blocks come in opposite order; within a block the stable tie
    // order is kept.
    assert_eq!(col_strs(&asc, 0), vec!["a", "a", "b", "b"]);
    assert_eq!(col_strs(&desc, 0), vec!["b", "b", "a", "a"]);
    assert_eq!(col_ints(&asc, 1), vec![2, 4, 1, 3]);
    assert_eq!(col_ints(&desc, 1), vec![1, 3, 2, 4]);
}

#[test]
fn sort_empty_keys_fails() {
    let t = sales_table();
    assert_eq!(sort(&t, &vec![]).unwrap_err(), TableError::EmptySortKeys);
}

#[test]
fn sort_unknown_column_fails() {
    let t = sales_table();
    let keys = vec![SortKey {
        column: "nope".to_string(),
        ascending: true,
    }];
    assert_eq!(sort(&t, &keys).unwrap_err(), TableError::ColumnNotFound);
}

#[test]
fn group_sum_scenario_exact_totals() {
    // (region, sales) = [(US,100),(US,200),(UK,150),(US,300)]
    let t = Table::new(vec![
        str_col("region", &["US", "US", "UK", "US"]),
        int_col("sales", &[100, 200, 150, 300]),
    ])
    .unwrap();
    let out = group_sum(&t, &"region".to_string(), &"sales".to_string()).unwrap();
    assert_eq!(out.num_rows(), 2);
    let keys = col_strs(&out, 0);
    let sums = col_ints(&out, 1);
    let mut pairs: Vec<(String, i64)> = keys.into_iter().zip(sums.into_iter()).collect();
    pairs.sort();
    assert_eq!(
        pairs,
        vec![("UK".to_string(), 150), ("US".to_string(), 600)]
    );
}

#[test]
fn group_sum_conserves_the_total() {
    let t = sales_table();
    let out = group_sum(&t, &"region".to_string(), &"sales".to_string()).unwrap();
    let total_in: i64 = col_ints(&t, 3).iter().sum();
    let total_out: i64 = col_ints(&out, 1).iter().sum();
    assert_eq!(total_in, total_out);
    // One output row per distinct key.
    assert_eq!(out.num_rows(), 3);
}

#[test]
fn group_sum_missing_column_fails() {
    let t = sales_table();
    assert_eq!(
        group_sum(&t, &"nope".to_string(), &"sales".to_string()).unwrap_err(),
        TableError::ColumnNotFound
    );
    assert_eq!(
        group_sum(&t, &"region".to_string(), &"nope".to_string()).unwrap_err(),
        TableError::ColumnNotFound
    );
}

#[test]
fn group_sum_non_numeric_value_fails() {
    let t = sales_table();
    assert_eq!(
        group_sum(&t, &"region".to_string(), &"product".to_string()).unwrap_err(),
        TableError::TypeMismatch
    );
}

#[test]
fn group_sum_colliding_output_name_fails() {
    let t = Table::new(vec![
        str_col("sum_x", &["a", "b"]),
        int_col("x", &[1, 2]),
    ])
    .unwrap();
    assert_eq!(
        group_sum(&t, &"sum_x".to_string(), &"x".to_string()).unwrap_err(),
        TableError::AmbiguousColumnName
    );
}

#[test]
fn group_sum_overflow_fails() {
    let t = Table::new(vec![
        str_col("k", &["a", "a"]),
        int_col("v", &[i64::MAX, 1]),
    ])
    .unwrap();
    assert_eq!(
        group_sum(&t, &"k".to_string(), &"v".to_string()).unwrap_err(),
        TableError::SumOverflow
    );
}

#[test]
fn pivot_scenario_exact_cells() {
    // (region, product, sales) = [(US,A,100),(UK,A,150),(US,B,200)]
    let t = Table::new(vec![
        str_col("region", &["US", "UK", "US"]),
        str_col("product", &["A", "A", "B"]),
        int_col("sales", &[100, 150, 200]),
    ])
    .unwrap();
    let out = pivot(
        &t,
        &"region".to_string(),
        &"product".to_string(),
        &"sales".to_string(),
    )
    .unwrap();
    assert_eq!(out.num_columns(), 3);
    assert_eq!(out.column(0).name(), "region");
    assert_eq!(out.column(1).name(), "A");
    assert_eq!(out.column(2).name(), "B");
    assert_eq!(col_strs(&out, 0), vec!["UK", "US"]);
    assert_eq!(col_ints(&out, 1), vec![150, 100]);
    // The (UK, B) combination never occurs: its cell is exactly zero.
    assert_eq!(col_ints(&out, 2), vec![0, 200]);
}

#[test]
fn pivot_full_dataset() {
    let t = sales_table();
    let out = pivot(
        &t,
        &"region".to_string(),
        &"product".to_string(),
        &"sales".to_string(),
    )
    .unwrap();
    assert_eq!(col_strs(&out, 0), vec!["EU", "UK", "US"]);
    assert_eq!(col_ints(&out, 1), vec![80, 150, 400]);
    assert_eq!(col_ints(&out, 2), vec![220, 120, 310]);
}

#[test]
fn pivot_name_collision_fails() {
    // A column-key value whose text form equals the row-key column's name.
    let t = Table::new(vec![
        str_col("region", &["US"]),
        str_col("product", &["region"]),
        int_col("sales", &[1]),
    ])
    .unwrap();
    assert_eq!(
        pivot(
            &t,
            &"region".to_string(),
            &"product".to_string(),
            &"sales".to_string()
        )
        .unwrap_err(),
        TableError::AmbiguousColumnName
    );
}

#[test]
fn pivot_missing_column_fails() {
    let t = sales_table();
    assert_eq!(
        pivot(
            &t,
            &"region".to_string(),
            &"nope".to_string(),
            &"sales".to_string()
        )
        .unwrap_err(),
        TableError::ColumnNotFound
    );
}

#[test]
fn index_lookup_returns_positions_in_order() {
    let t = sales_table();
    let idx = build_index(t.column(1));
    assert_eq!(idx.lookup(&Value::Str("UK".to_string())), vec![2, 4]);
    assert_eq!(idx.lookup(&Value::Str("US".to_string())), vec![0, 1, 3, 7]);
    assert_eq!(idx.lookup(&Value::Str("EU".to_string())), vec![5, 6]);
}

#[test]
fn index_lookup_of_absent_value_is_empty() {
    let t = sales_table();
    let idx = build_index(t.column(1));
    assert_eq!(idx.lookup(&Value::Str("JP".to_string())), Vec::<usize>::new());
}

#[test]
fn slice_reads_the_backing_range() {
    let c = int_col("sales", &[100, 200, 150, 300, 120]);
    let s = slice(&c, 2, 3).unwrap();
    assert_eq!(s.len(), 3);
    assert_eq!(*s.get(0), Value::Int(150));
    assert_eq!(*s.get(1), Value::Int(300));
    assert_eq!(*s.get(2), Value::Int(120));
    let m = s.materialize();
    assert_eq!(m.len(), 3);
    assert_eq!(*m.get(0), Value::Int(150));
}

#[test]
fn slice_out_of_range_fails() {
    let c = int_col("xs", &[1, 2, 3]);
    assert_eq!(slice(&c, 2, 2).unwrap_err(), TableError::SliceOutOfRange);
    assert_eq!(slice(&c, 4, 0).unwrap_err(), TableError::SliceOutOfRange);
    assert!(slice(&c, 3, 0).is_ok());
}

#[test]
fn page_of_clamps_and_counts_pages() {
    let t = sales_table();
    let (p1, total, pages) = page_of(&t, 1, 3);
    assert_eq!(total, 8);
    assert_eq!(pages, 3);
    assert_eq!(col_ints(&p1, 0), vec![1, 2, 3]);
    let (p3, _, _) = page_of(&t, 3, 3);
    assert_eq!(col_ints(&p3, 0), vec![7, 8]);
    let (p9, _, _) = page_of(&t, 9, 3);
    assert_eq!(p9.num_rows(), 0);
}

#[test]
fn view_page_sorts_then_pages() {
    let t = sales_table();
    let key = Some(SortKey {
        column: "sales".to_string(),
        ascending: false,
    });
    let (page, total, pages) = view_page(&t, &key, 1, 3).unwrap();
    assert_eq!(total, 8);
    assert_eq!(pages, 3);
    assert_eq!(col_ints(&page, 3), vec![300, 220, 200]);
    let r = view_page(
        &t,
        &Some(SortKey {
            column: "nope".to_string(),
            ascending: true,
        }),
        1,
        3,
    );
    assert_eq!(r.unwrap_err(), TableError::ColumnNotFound);
}

#[test]
fn values_render_exactly() {
    assert_eq!(value_to_string(&Value::Int(0)), "0");
    assert_eq!(value_to_string(&Value::Int(907)), "907");
    assert_eq!(value_to_string(&Value::Int(-45)), "-45");
    assert_eq!(
        value_to_string(&Value::Int(i64::MIN)),
        "-9223372036854775808"
    );
    assert_eq!(value_to_string(&Value::Bool(true)), "true");
    assert_eq!(value_to_string(&Value::Bool(false)), "false");
    assert_eq!(value_to_string(&Value::Str("abc".to_string())), "abc");
}

#[test]
fn group_sum_keys_in_first_occurrence_order() {
    let t = Table::new(vec![
        str_col("region", &["US", "US", "UK", "US"]),
        int_col("sales", &[100, 200, 150, 300]),
    ])
    .unwrap();
    let out = group_sum(&t, &"region".to_string(), &"sales".to_string()).unwrap();
    assert_eq!(out.column(0).name(), "region");
    assert_eq!(out.column(1).name(), "sum_sales");
    assert_eq!(col_strs(&out, 0), vec!["US", "UK"]);
    assert_eq!(col_ints(&out, 1), vec![600, 150]);
}

#[test]
fn pivot_integer_column_keys_name_columns_in_decimal() {
    let t = Table::new(vec![
        str_col("region", &["US", "UK", "US"]),
        int_col("product", &[2, 2, 1]),
        int_col("sales", &[100, 150, 200]),
    ])
    .unwrap();
    let out = pivot(
        &t,
        &"region".to_string(),
        &"product".to_string(),
        &"sales".to_string(),
    )
    .unwrap();
    assert_eq!(out.column(1).name(), "1");
    assert_eq!(out.column(2).name(), "2");
    assert_eq!(col_strs(&out, 0), vec!["UK", "US"]);
    assert_eq!(col_ints(&out, 1), vec![0, 200]);
    assert_eq!(col_ints(&out, 2), vec![150, 100]);
}
