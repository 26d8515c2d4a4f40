use rlike::data_frame::column::Column;
use rlike::data_frame::frame::{DataFrame, DfError};
use rlike::data_frame::query::Query;
use rlike::data_frame::access::DataFrameSlice;
use rlike::types::NumBits;

fn strs(v: &[&str]) -> Vec<String> {
    v.iter().map(|x| x.to_string()).collect()
}

fn long() -> DataFrame {
    let mut df = DataFrame::new();
    df.add_col::<i32>("g", vec![Some(1), Some(1), Some(2), Some(2), Some(1)]);
    df.add_col::<String>("p", vec![Some("a".to_string()), Some("b".to_string()), Some("a".to_string()), Some("a".to_string()), Some("a".to_string())]);
    df.add_col::<i32>("v", vec![Some(1), Some(2), Some(3), Some(4), Some(5)]);
    df
}

#[test]
fn pivot_sums_by_category() {
    let df = long();
    let out = Query::new()
        .execute_pivot::<i32, i32>(&df, strs(&["g"]), "p".to_string(), "v".to_string(), None, |x: Vec<i32>| x.iter().sum())
        .unwrap();
    assert_eq!(out.get::<i32>("g").unwrap(), vec![Some(1), Some(2)]);
    assert_eq!(out.get::<i32>("a").unwrap(), vec![Some(6), Some(7)]);
    assert_eq!(out.get::<i32>("b").unwrap(), vec![Some(2), None]);
}

#[test]
fn pivot_counts_without_fill() {
    let df = long();
    let out = Query::new()
        .execute_pivot::<String, usize>(&df, strs(&["g"]), "p".to_string(), "p".to_string(), Some(0), |x: Vec<String>| x.len())
        .unwrap();
    assert_eq!(out.get::<usize>("a").unwrap(), vec![Some(2), Some(2)]);
    assert_eq!(out.get::<usize>("b").unwrap(), vec![Some(1), Some(0)]);
}

#[test]
fn do_df_binds_group_outputs() {
    let df = long();
    let mut q = Query::new();
    q.set_grouping_cols(&df, strs(&["g"]), Vec::new()).unwrap();
    let out = q
        .execute_do_df(&df, |_g: usize, grp: DataFrame, s: DataFrameSlice| {
            let mut d = grp;
            d.add_col::<usize>("n", vec![Some(s.n_row)]);
            d
        })
        .unwrap();
    assert_eq!(out.get::<i32>("g").unwrap(), vec![Some(1), Some(2)]);
    assert_eq!(out.get::<usize>("n").unwrap(), vec![Some(3), Some(2)]);
}

#[test]
fn do_vec_flattens_group_outputs() {
    let mut df = long();
    let mut q = Query::new();
    q.set_grouping_cols(&df, strs(&["g"]), Vec::new()).unwrap();
    let out = q.execute_do_vec(&mut df, |g: usize, _grp: DataFrame, s: DataFrameSlice| vec![g, s.n_row]).unwrap();
    assert_eq!(out, vec![0, 3, 1, 2]);
}

#[test]
fn read_records_parses_fields() {
    let mut df = DataFrame::new();
    df.add_col::<i32>("a", Vec::new());
    df.add_col::<bool>("b", Vec::new());
    df.add_col::<NumBits>("n", Vec::new());
    let records = vec![strs(&["1", "T", "0.5"]), strs(&["NA", "false", "1"])];
    let nums = vec![Vec::new(), Vec::new(), vec![Some(NumBits(11)), Some(NumBits(12))]];
    df.process_read_records(&records, &nums).unwrap();
    assert_eq!(df.n_row(), 2);
    assert_eq!(df.get::<i32>("a").unwrap(), vec![Some(1), None]);
    assert_eq!(df.get::<bool>("b").unwrap(), vec![Some(true), Some(false)]);
    assert_eq!(df.get::<NumBits>("n").unwrap(), vec![Some(NumBits(11)), Some(NumBits(12))]);
}

#[test]
fn read_records_refuses_bad_text_and_short_rows() {
    let mut df = DataFrame::new();
    df.add_col::<i32>("a", Vec::new());
    let records = vec![strs(&["x1"])];
    assert!(matches!(df.process_read_records(&records, &vec![Vec::new()]), Err(DfError::Parse(_))));
    let mut df2 = DataFrame::new();
    df2.add_col::<i32>("a", Vec::new());
    df2.add_col::<i32>("b", Vec::new());
    let short = vec![strs(&["1"])];
    assert!(matches!(df2.process_read_records(&short, &vec![Vec::new(), Vec::new()]), Err(DfError::ColumnNotFound(n)) if n == "b"));
}

#[test]
fn save_header_bytes() {
    let mut df = DataFrame::new();
    df.add_col::<i32>("a", vec![Some(1), Some(2)]);
    let h = df.save_header("K");
    let mut expected = b"RLIKEDF1".to_vec();
    expected.push(b'K');
    expected.extend_from_slice(&2u64.to_le_bytes());
    expected.extend_from_slice(&1u64.to_le_bytes());
    assert_eq!(h, expected);
}

#[test]
fn pivot_refusals() {
    let mut df = long();
    df.add_col::<NumBits>("x", vec![Some(NumBits(1)), Some(NumBits(2)), Some(NumBits(3)), Some(NumBits(4)), Some(NumBits(5))]);
    let sum = |x: Vec<i32>| -> i32 { x.iter().sum() };
    let r = Query::new().execute_pivot::<i32, i32>(&df, strs(&["g"]), "x".to_string(), "v".to_string(), None, sum);
    assert!(matches!(r, Err(DfError::TypeMismatch(n)) if n == "x"));
    let r = Query::new().execute_pivot::<usize, i32>(&df, strs(&["g"]), "p".to_string(), "v".to_string(), None, |x: Vec<usize>| x.len() as i32);
    assert!(matches!(r, Err(DfError::TypeMismatch(n)) if n == "v"));
    let r = Query::new().execute_pivot::<i32, i32>(&df, Vec::new(), "p".to_string(), "v".to_string(), None, sum);
    assert!(matches!(r, Err(DfError::GroupWithoutColumns)));
    let mut q = Query::new();
    q.set_grouping_cols(&df, strs(&["g"]), Vec::new()).unwrap();
    let r = q.execute_pivot::<i32, i32>(&df, strs(&["g"]), "p".to_string(), "v".to_string(), None, sum);
    assert!(matches!(r, Err(DfError::GroupRepeated)));
    let r = Query::new().execute_pivot::<i32, i32>(&df, strs(&["p"]), "g".to_string(), "v".to_string(), None, sum);
    assert!(matches!(r, Err(DfError::StringKey(n)) if n == "p"));
}

#[test]
fn do_df_refuses_outputs_with_other_names() {
    let df = long();
    let mut q = Query::new();
    q.set_grouping_cols(&df, strs(&["g"]), Vec::new()).unwrap();
    let r = q.execute_do_df(&df, |g: usize, grp: DataFrame, _s: DataFrameSlice| {
        let mut d = grp;
        if g == 0 {
            d.add_col::<usize>("n", vec![Some(1)]);
        } else {
            d.add_col::<usize>("m", vec![Some(2)]);
        }
        d
    });
    assert!(matches!(r, Err(DfError::ColumnNamesDiffer)));
}

#[test]
fn pivot_counts_per_group_and_category() {
    let mut df = DataFrame::new();
    df.add_col::<i32>("k", vec![Some(1), Some(1), Some(2)]);
    df.add_col::<String>("p", vec![Some("x".to_string()), Some("y".to_string()), Some("x".to_string())]);
    let out = Query::new()
        .execute_pivot::<String, usize>(&df, strs(&["k"]), "p".to_string(), "p".to_string(), Some(0), |v: Vec<String>| v.len())
        .unwrap();
    assert_eq!(out.col_names().clone(), strs(&["k", "x", "y"]));
    assert_eq!(out.n_row(), 2);
    assert_eq!(out.get::<i32>("k").unwrap(), vec![Some(1), Some(2)]);
    assert_eq!(out.get::<usize>("x").unwrap(), vec![Some(1), Some(1)]);
    assert_eq!(out.get::<usize>("y").unwrap(), vec![Some(1), Some(0)]);
}

#[test]
fn read_records_reset_status() {
    let mut df = DataFrame::new();
    df.add_col::<i32>("a", Vec::new());
    let records = vec![strs(&["2"]), strs(&["1"])];
    df.process_read_records(&records, &vec![Vec::new()]).unwrap();
    assert!(!df.status().is_sorted);
    assert_eq!(df.get::<i32>("a").unwrap(), vec![Some(2), Some(1)]);
}

#[test]
fn group_by_sorted_groups_in_key_order() {
    let mut df = DataFrame::new();
    df.add_col::<i32>("k", vec![Some(3), Some(1), Some(3), None]);
    let mut q = Query::new();
    q.set_sort_cols(&df, Vec::new()).unwrap();
    q.set_grouping_cols(&df, strs(&["k"]), Vec::new()).unwrap();
    let (g, _f, gm) = q.execute_group_by(&df).unwrap();
    assert_eq!(g.get::<i32>("k").unwrap(), vec![None, Some(1), Some(3)]);
    let sizes: Vec<usize> = gm.iter().map(|x| x.len()).collect();
    assert_eq!(sizes, vec![1, 1, 2]);
}

#[test]
fn pivot_with_factor_key_without_clash() {
    let mut df = DataFrame::new();
    df.add_col::<u16>("f", vec![Some(0), Some(0), Some(1)]);
    df.set_labels("f", vec!["a", "b"]);
    df.add_col::<String>("p", vec![Some("x".to_string()), Some("y".to_string()), Some("x".to_string())]);
    let out = Query::new()
        .execute_pivot::<String, usize>(&df, strs(&["f"]), "p".to_string(), "p".to_string(), Some(0), |v: Vec<String>| v.len())
        .unwrap();
    assert_eq!(out.col_names().clone(), strs(&["f", "x", "y"]));
    assert_eq!(out.get::<u16>("f").unwrap(), vec![Some(0), Some(1)]);
    assert_eq!(out.get::<usize>("x").unwrap(), vec![Some(1), Some(1)]);
    assert_eq!(out.get::<usize>("y").unwrap(), vec![Some(1), Some(0)]);
}

#[test]
fn pivot_refuses_category_named_as_factor_key() {
    let mut df = DataFrame::new();
    df.add_col::<u16>("f", vec![Some(0), Some(0), Some(1)]);
    df.set_labels("f", vec!["a", "b"]);
    df.add_col::<String>("p", vec![Some("x".to_string()), Some("f".to_string()), Some("x".to_string())]);
    let r = Query::new()
        .execute_pivot::<String, usize>(&df, strs(&["f"]), "p".to_string(), "p".to_string(), Some(0), |v: Vec<String>| v.len());
    assert!(matches!(r, Err(DfError::TypeMismatch(_))));
}

#[test]
fn read_records_factor_labels_get_positions() {
    let mut df = DataFrame::new();
    df.add_col::<u16>("f", Vec::new());
    if let Column::RFactor(f) = &mut df.columns[0] {
        f.auto_label = true;
    }
    let records = vec![strs(&["b"]), strs(&["a"]), strs(&["b"]), strs(&["NA"])];
    df.process_read_records(&records, &vec![Vec::new()]).unwrap();
    assert_eq!(df.get_labels("f").unwrap(), strs(&["b", "a"]));
    assert_eq!(df.get_levels("f").unwrap(), vec![("b".to_string(), 0u16), ("a".to_string(), 1u16)]);
    assert_eq!(df.get::<u16>("f").unwrap(), vec![Some(0), Some(1), Some(0), None]);
    let more = vec![strs(&["c"]), strs(&["a"])];
    df.process_read_records(&more, &vec![Vec::new()]).unwrap();
    assert_eq!(df.get_labels("f").unwrap(), strs(&["b", "a", "c"]));
    assert_eq!(df.get::<u16>("f").unwrap(), vec![Some(0), Some(1), Some(0), None, Some(2), Some(1)]);
}

#[test]
fn read_records_parses_integer_edges() {
    let mut df = DataFrame::new();
    df.add_col::<i32>("a", Vec::new());
    df.add_col::<usize>("u", Vec::new());
    let records = vec![strs(&["-2147483648", "+3"]), strs(&["+2147483647", "0"]), strs(&["007", "18446744073709551615"])];
    df.process_read_records(&records, &vec![Vec::new(), Vec::new()]).unwrap();
    assert_eq!(df.get::<i32>("a").unwrap(), vec![Some(i32::MIN), Some(i32::MAX), Some(7)]);
    assert_eq!(df.get::<usize>("u").unwrap(), vec![Some(3), Some(0), Some(usize::MAX)]);
    for bad in [vec!["2147483648", "1"], vec!["-", "1"], vec!["1", "-1"], vec!["1a", "1"], vec!["", "1"], vec!["1", "18446744073709551616"]] {
        let mut d = DataFrame::new();
        d.add_col::<i32>("a", Vec::new());
        d.add_col::<usize>("u", Vec::new());
        let rec = vec![strs(&bad)];
        assert!(matches!(d.process_read_records(&rec, &vec![Vec::new(), Vec::new()]), Err(DfError::Parse(_))));
    }
}
