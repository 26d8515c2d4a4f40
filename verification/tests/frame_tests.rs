use rlike::data_frame::access::DataFrameSlice;
use rlike::data_frame::frame_trait::DataFrameTrait;
use rlike::data_frame::frame::{DataFrame, DfError};
use rlike::data_frame::text::CellText;
use rlike::data_frame::query::Query;
use rlike::types::NumBits;

fn sample() -> DataFrame {
    let mut df = DataFrame::new();
    df.add_col::<i32>("a", vec![Some(3), Some(1), None, Some(2)]);
    df.add_col::<bool>("b", vec![Some(true), Some(false), Some(true), None]);
    df.add_col::<String>("s", vec![Some("x".to_string()), Some("y".to_string()), None, Some("x".to_string())]);
    df
}

fn strs(v: &[&str]) -> Vec<String> {
    v.iter().map(|x| x.to_string()).collect()
}

#[test]
fn frame_shape_and_names() {
    let df = sample();
    assert_eq!(df.n_row(), 4);
    assert_eq!(df.n_col(), 3);
    assert_eq!(df.col_names().clone(), strs(&["a", "b", "s"]));
    assert!(!df.is_empty());
    assert!(DataFrame::new().is_empty());
}

#[test]
fn frame_get_and_cell() {
    let df = sample();
    assert_eq!(df.get::<i32>("a").unwrap(), vec![Some(3), Some(1), None, Some(2)]);
    assert_eq!(df.cell::<bool>("b", 1).unwrap(), Some(false));
    assert!(matches!(df.get::<bool>("a"), Err(DfError::TypeMismatch(n)) if n == "a"));
    assert!(matches!(df.cell::<i32>("zz", 0), Err(DfError::ColumnNotFound(n)) if n == "zz"));
}

#[test]
fn frame_set_cell() {
    let mut df = sample();
    df.set::<i32>("a", 2, Some(7)).unwrap();
    assert_eq!(df.get::<i32>("a").unwrap(), vec![Some(3), Some(1), Some(7), Some(2)]);
    assert!(matches!(df.set::<String>("a", 0, None), Err(DfError::TypeMismatch(_))));
}

#[test]
fn frame_cell_string_texts() {
    let df = sample();
    match df.cell_string("a", 0).unwrap() {
        CellText::Text(t) => assert_eq!(t, "3"),
        _ => panic!("expected text"),
    }
    match df.cell_string("a", 2).unwrap() {
        CellText::Text(t) => assert_eq!(t, "NA"),
        _ => panic!("expected text"),
    }
    match df.cell_string("b", 0).unwrap() {
        CellText::Text(t) => assert_eq!(t, "true"),
        _ => panic!("expected text"),
    }
}

#[test]
fn frame_add_col_recycles_single_row() {
    let mut df = sample();
    df.add_col::<usize>("k", vec![Some(5)]);
    assert_eq!(df.get::<usize>("k").unwrap(), vec![Some(5); 4]);
    let mut one = DataFrame::new();
    one.add_col::<i32>("x", vec![Some(1)]);
    one.add_col::<i32>("y", vec![Some(1), Some(2), Some(3)]);
    assert_eq!(one.n_row(), 3);
    assert_eq!(one.get::<i32>("x").unwrap(), vec![Some(1), Some(1), Some(1)]);
}

#[test]
fn frame_drop_and_retain() {
    let mut df = sample();
    df.drop_col("b");
    assert_eq!(df.col_names().clone(), strs(&["a", "s"]));
    df.retain_cols(strs(&["s"]));
    assert_eq!(df.col_names().clone(), strs(&["s"]));
    assert_eq!(df.n_row(), 4);
}

#[test]
fn frame_numeric_bits_column() {
    let mut df = DataFrame::new();
    df.add_col::<NumBits>("n", vec![Some(NumBits(1)), None]);
    match df.cell_string("n", 0).unwrap() {
        CellText::Num(b) => assert_eq!(b, NumBits(1)),
        _ => panic!("expected number"),
    }
}

#[test]
fn query_sort_descending_keeps_na_first() {
    let df = sample();
    let mut q = Query::new();
    q.set_sort_cols(&df, strs(&["_a"])).unwrap();
    let out = q.execute_select_query(&df).unwrap();
    assert_eq!(out.get::<i32>("a").unwrap(), vec![None, Some(3), Some(2), Some(1)]);
}

#[test]
fn query_sort_ascending_puts_na_first() {
    let df = sample();
    let mut q = Query::new();
    q.set_sort_cols(&df, strs(&["a"])).unwrap();
    let out = q.execute_select_query(&df).unwrap();
    assert_eq!(out.get::<i32>("a").unwrap(), vec![None, Some(1), Some(2), Some(3)]);
    assert_eq!(out.get::<bool>("b").unwrap(), vec![Some(true), Some(false), None, Some(true)]);
}

#[test]
fn query_filter_and_select() {
    let df = sample();
    let mut q = Query::new();
    q.check_filter_status(df.n_row()).unwrap();
    q.set_col_filter_1::<i32>(&df, "a", |x: Option<i32>| match x {
        Some(v) => v >= 2,
        None => false,
    })
    .unwrap();
    q.set_select_cols(&df, strs(&["a"])).unwrap();
    let out = q.execute_select_query(&df).unwrap();
    assert_eq!(out.col_names().clone(), strs(&["a"]));
    assert_eq!(out.get::<i32>("a").unwrap(), vec![Some(3), Some(2)]);
}

#[test]
fn query_sort_repeated_is_refused() {
    let df = sample();
    let mut q = Query::new();
    q.set_sort_cols(&df, strs(&["a"])).unwrap();
    assert!(matches!(q.set_sort_cols(&df, strs(&["a"])), Err(DfError::SortRepeated)));
}

#[test]
fn query_sort_missing_column() {
    let df = sample();
    let mut q = Query::new();
    assert!(matches!(q.set_sort_cols(&df, strs(&["zz"])), Err(DfError::ColumnNotFound(n)) if n == "zz"));
}

#[test]
fn query_multi_key_string_sort_refused() {
    let df = sample();
    let mut q = Query::new();
    q.set_sort_cols(&df, strs(&["s", "a"])).unwrap();
    assert!(matches!(q.execute_select_query(&df), Err(DfError::StringKey(_))));
}

#[test]
fn query_group_sum() {
    let mut df = DataFrame::new();
    df.add_col::<i32>("g", vec![Some(2), Some(1), Some(2), Some(1), Some(3)]);
    df.add_col::<i32>("v", vec![Some(10), Some(1), None, Some(4), Some(7)]);
    let mut q = Query::new();
    q.set_sort_cols(&df, Vec::new()).unwrap();
    q.set_grouping_cols(&df, strs(&["g"]), strs(&["v"])).unwrap();
    let (mut grp, fss, gm) = q.execute_group_by(&df).unwrap();
    assert_eq!(grp.get::<i32>("g").unwrap(), vec![Some(1), Some(2), Some(3)]);
    let src = match &fss {
        Some(f) => f,
        None => &df,
    };
    Query::aggregate_column::<i32, i32>(&mut grp, src, "v", "v_sum", &gm, None, |x: Vec<i32>| x.iter().sum()).unwrap();
    assert_eq!(grp.get::<i32>("v_sum").unwrap(), vec![Some(5), Some(10), Some(7)]);
}

#[test]
fn query_filter_keeps_source_order() {
    let df = sample();
    let mut q = Query::new();
    q.check_filter_status(df.n_row()).unwrap();
    q.set_col_filter_1::<bool>(&df, "b", |x: Option<bool>| x.is_some()).unwrap();
    let out = q.execute_select_query(&df).unwrap();
    assert_eq!(out.col_names().clone(), strs(&["a", "b", "s"]));
    assert_eq!(out.get::<i32>("a").unwrap(), vec![Some(3), Some(1), None]);
    assert_eq!(out.get::<bool>("b").unwrap(), vec![Some(true), Some(false), Some(true)]);
}

#[test]
fn query_group_by_text_unsorted_refused() {
    let df = sample();
    let mut q = Query::new();
    q.set_grouping_cols(&df, strs(&["s"]), strs(&["a"])).unwrap();
    assert!(matches!(q.execute_group_by(&df), Err(DfError::StringKey(n)) if n == "s"));
}

#[test]
fn query_group_by_text_sorted_alone_allowed() {
    let df = sample();
    let mut q = Query::new();
    q.set_sort_cols(&df, Vec::new()).unwrap();
    q.set_grouping_cols(&df, strs(&["s"]), strs(&["a"])).unwrap();
    let (grp, _fss, gm) = q.execute_group_by(&df).unwrap();
    assert_eq!(grp.get::<String>("s").unwrap(), vec![None, Some("x".to_string()), Some("y".to_string())]);
    assert_eq!(gm.len(), 3);
}

#[test]
fn frame_labels_of_non_factor_refused() {
    let df = sample();
    assert!(matches!(df.get_labels("a"), Err(DfError::NotFactor(n)) if n == "a"));
    assert!(matches!(df.get_levels("b"), Err(DfError::NotFactor(n)) if n == "b"));
}

#[test]
fn query_action_order_refusals() {
    let df = sample();
    let mut q = Query::new();
    q.set_sort_cols(&df, strs(&["a"])).unwrap();
    assert!(matches!(q.check_filter_status(df.n_row()), Err(DfError::FilterAfterSort)));
    let mut q = Query::new();
    q.check_filter_status(df.n_row()).unwrap();
    assert!(matches!(q.check_filter_status(df.n_row()), Err(DfError::FilterRepeated)));
    let mut q = Query::new();
    q.set_select_cols(&df, strs(&["a"])).unwrap();
    assert!(matches!(q.set_select_cols(&df, strs(&["b"])), Err(DfError::SelectRepeated)));
    let mut q = Query::new();
    q.set_sort_cols(&df, strs(&["a"])).unwrap();
    assert!(matches!(q.set_grouping_cols(&df, strs(&["b"]), Vec::new()), Err(DfError::GroupSortMismatch)));
    let mut q = Query::new();
    let many = strs(&["a", "b", "s", "a", "b", "s", "a", "b", "s"]);
    assert!(matches!(q.set_sort_cols(&df, many), Err(DfError::TooManyKeyColumns)));
}

#[test]
fn slice_shares_frame_interface() {
    let df = sample();
    let ds = DataFrameSlice::new(&df, 1, 2);
    assert_eq!(DataFrameTrait::n_row(&ds), 2);
    assert_eq!(DataFrameTrait::n_col(&ds), 3);
    assert!(DataFrameTrait::has_rows(&ds));
    assert!(!DataFrameTrait::is_empty(&ds));
    assert_eq!(DataFrameTrait::col_names(&ds).clone(), strs(&["a", "b", "s"]));
    assert_eq!(DataFrameTrait::get::<i32>(&ds, "a").unwrap(), vec![Some(1), None]);
    assert!(matches!(DataFrameTrait::get::<bool>(&ds, "a"), Err(DfError::TypeMismatch(n)) if n == "a"));
    assert!(matches!(DataFrameTrait::get::<i32>(&ds, "zz"), Err(DfError::ColumnNotFound(n)) if n == "zz"));
    assert_eq!(DataFrameTrait::get::<i32>(&df, "a").unwrap(), vec![Some(3), Some(1), None, Some(2)]);
    assert_eq!(DataFrameTrait::n_row(&df), 4);
}

#[test]
fn query_aggregate_with_agg_sum() {
    use_agg_sum();
}

fn use_agg_sum() {
    let mut df = DataFrame::new();
    df.add_col::<i32>("k", vec![Some(1), Some(2), Some(1)]);
    df.add_col::<i32>("v", vec![Some(5), None, Some(7)]);
    let mut q = Query::new();
    q.set_grouping_cols(&df, strs(&["k"]), strs(&["v"])).unwrap();
    let (mut g, f, gm) = q.execute_group_by(&df).unwrap();
    let src = match &f {
        Some(x) => x,
        None => &df,
    };
    Query::aggregate_column::<i32, i32>(&mut g, src, "v", "s", &gm, Some(0), rlike::types::Agg::sum::<i32>).unwrap();
    assert_eq!(g.col_names().clone(), strs(&["k", "s"]));
    assert_eq!(g.get::<i32>("k").unwrap(), vec![Some(1), Some(2)]);
    assert_eq!(g.get::<i32>("s").unwrap(), vec![Some(12), Some(0)]);
}
