use rlike::data_frame::column::Column;
use rlike::data_frame::frame::{DataFrame, DfError};
use rlike::data_frame::access::DataFrameSlice;
use rlike::data_frame::query::Query;

fn strs(v: &[&str]) -> Vec<String> {
    v.iter().map(|x| x.to_string()).collect()
}

fn src() -> DataFrame {
    let mut df = DataFrame::new();
    df.add_col::<i32>("a", vec![Some(5), None, Some(7)]);
    df.add_col::<u16>("f", vec![Some(1), Some(2), Some(1)]);
    df.set_labels("f", vec!["lo", "hi"]);
    df.add_col::<String>("s", vec![Some("p".to_string()), Some("q".to_string()), None]);
    df
}

#[test]
fn column_add_empty_col_by_type_text() {
    let mut df = DataFrame::new();
    Column::add_empty_col(&mut df, "x", "usize").unwrap();
    Column::add_empty_col(&mut df, "y", "alloc::string::String").unwrap();
    assert_eq!(df.col_names().clone(), strs(&["x", "y"]));
    assert_eq!(df.n_row(), 0);
    assert_eq!(df.get::<usize>("x").unwrap(), Vec::<Option<usize>>::new());
    assert!(matches!(Column::add_empty_col(&mut df, "z", "i128"), Err(DfError::UnknownType(t)) if t == "i128"));
    let mut full = src();
    assert!(matches!(Column::add_empty_col(&mut full, "z", "i32"), Err(DfError::HasRows)));
    assert_eq!(full.n_col(), 3);
}

#[test]
fn column_add_empty_cols_from_schema() {
    let s = src();
    let mut df = DataFrame::new();
    Column::add_empty_cols(&s, &mut df, strs(&["s", "a"])).unwrap();
    assert_eq!(df.col_names().clone(), strs(&["s", "a"]));
    assert_eq!(df.get::<String>("s").unwrap(), Vec::<Option<String>>::new());
    assert_eq!(df.get::<i32>("a").unwrap(), Vec::<Option<i32>>::new());
    let mut full = DataFrame::new();
    full.add_col::<bool>("b", vec![Some(true)]);
    assert!(matches!(Column::add_empty_cols(&s, &mut full, strs(&["a"])), Err(DfError::HasRows)));
}

#[test]
fn column_copy_col_keeps_labels() {
    let s = src();
    let mut df = DataFrame::new();
    Column::copy_col(&s, &mut df, "f");
    assert_eq!(df.get::<u16>("f").unwrap(), vec![Some(1), Some(2), Some(1)]);
    assert_eq!(df.get_labels("f").unwrap(), strs(&["lo", "hi"]));
    Column::copy_col(&s, &mut df, "a");
    assert_eq!(df.get::<i32>("a").unwrap(), vec![Some(5), None, Some(7)]);
}

#[test]
fn column_copy_col_recycles_single_row() {
    let mut one = DataFrame::new();
    one.add_col::<i32>("a", vec![Some(9)]);
    let mut df = DataFrame::new();
    df.add_col::<bool>("b", vec![Some(true), Some(false)]);
    Column::copy_col(&one, &mut df, "a");
    assert_eq!(df.get::<i32>("a").unwrap(), vec![Some(9), Some(9)]);
}

#[test]
fn column_copy_col_rows_reorders() {
    let s = src();
    let mut df = DataFrame::new();
    Column::copy_col_rows(&s, &mut df, "s", &vec![2, 0, 0]);
    assert_eq!(df.get::<String>("s").unwrap(), vec![None, Some("p".to_string()), Some("p".to_string())]);
    Column::copy_col_rows(&s, &mut df, "f", &vec![1, 1, 2]);
    assert_eq!(df.get::<u16>("f").unwrap(), vec![Some(2), Some(2), Some(1)]);
    assert_eq!(df.get_labels("f").unwrap(), strs(&["lo", "hi"]));
}

#[test]
fn column_copy_slice_rows_takes_slice() {
    let s = src();
    let ds = DataFrameSlice::new(&s, 1, 2);
    let mut df = DataFrame::new();
    Column::copy_slice_rows(&ds, &mut df, "a");
    assert_eq!(df.get::<i32>("a").unwrap(), vec![None, Some(7)]);
}

#[test]
fn column_copy_col_map_follows_row_map() {
    let s = src();
    let mut q = Query::new();
    q.i_map = vec![(2, 0, 0), (0, 1, 1)];
    let mut df = DataFrame::new();
    Column::copy_col_map(&s, &mut df, &q, "a");
    assert_eq!(df.get::<i32>("a").unwrap(), vec![Some(7), Some(5)]);
}

#[test]
fn column_group_values_from_first_rows() {
    let s = src();
    let gm = vec![vec![(1, 0, 0)], vec![(0, 1, 1), (2, 2, 2)]];
    let mut df = DataFrame::new();
    Column::get_group_val_sorted(&s, &mut df, "f", &gm);
    assert_eq!(df.get::<u16>("f").unwrap(), vec![Some(2), Some(1)]);
    assert_eq!(df.get_labels("f").unwrap(), strs(&["lo", "hi"]));
}

#[test]
fn factor_set_labels_gives_positions_as_levels() {
    let df = src();
    let levels = df.get_levels("f").unwrap();
    assert_eq!(levels, vec![("lo".to_string(), 0u16), ("hi".to_string(), 1u16)]);
}
