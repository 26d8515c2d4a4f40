use rlike::data_frame::frame::{DataFrame, DfError};

fn strs(v: &[&str]) -> Vec<String> {
    v.iter().map(|x| x.to_string()).collect()
}

fn df_ab(a: Vec<Option<i32>>, b: Vec<Option<bool>>) -> DataFrame {
    let mut df = DataFrame::new();
    df.add_col::<i32>("a", a);
    df.add_col::<bool>("b", b);
    df
}

#[test]
fn rbind_stacks_rows() {
    let x = df_ab(vec![Some(1), Some(2)], vec![Some(true), None]);
    let y = df_ab(vec![Some(3)], vec![Some(false)]);
    let z = x.rbind(y).unwrap();
    assert_eq!(z.n_row(), 3);
    assert_eq!(z.get::<i32>("a").unwrap(), vec![Some(1), Some(2), Some(3)]);
    assert_eq!(z.get::<bool>("b").unwrap(), vec![Some(true), None, Some(false)]);
}

#[test]
fn rbind_ref_keeps_inputs() {
    let x = df_ab(vec![Some(1)], vec![Some(true)]);
    let y = df_ab(vec![Some(3)], vec![Some(false)]);
    let z = x.rbind_ref(&y).unwrap();
    assert_eq!(z.n_row(), 2);
    assert_eq!(x.n_row(), 1);
    assert_eq!(z.get::<i32>("a").unwrap(), vec![Some(1), Some(3)]);
}

#[test]
fn rbind_type_mismatch_refused() {
    let x = df_ab(vec![Some(1)], vec![Some(true)]);
    let mut y = DataFrame::new();
    y.add_col::<i32>("a", vec![Some(2)]);
    y.add_col::<i32>("b", vec![Some(0)]);
    assert!(matches!(x.rbind(y), Err(DfError::TypeMismatch(n)) if n == "b"));
}

#[test]
fn cbind_joins_columns_and_recycles() {
    let x = df_ab(vec![Some(1), Some(2)], vec![Some(true), Some(false)]);
    let mut y = DataFrame::new();
    y.add_col::<usize>("c", vec![Some(9)]);
    let z = x.cbind(y);
    assert_eq!(z.col_names().clone(), strs(&["a", "b", "c"]));
    assert_eq!(z.get::<usize>("c").unwrap(), vec![Some(9), Some(9)]);
}

#[test]
fn cbind_with_empty_gives_other() {
    let x = df_ab(vec![Some(1)], vec![Some(true)]);
    let z = DataFrame::new().cbind(x);
    assert_eq!(z.n_row(), 1);
    assert_eq!(z.n_col(), 2);
}

#[test]
fn cbind_ref_copies() {
    let x = df_ab(vec![Some(1), Some(2)], vec![Some(true), Some(false)]);
    let mut y = DataFrame::new();
    y.add_col::<i32>("c", vec![Some(5), Some(6)]);
    let z = x.cbind_ref(&y);
    assert_eq!(z.n_col(), 3);
    assert_eq!(z.get::<i32>("c").unwrap(), vec![Some(5), Some(6)]);
    assert_eq!(x.n_col(), 2);
}

#[test]
fn cbind_slice_takes_rows() {
    let x = df_ab(vec![Some(1), Some(2)], vec![Some(true), Some(false)]);
    let mut y = DataFrame::new();
    y.add_col::<i32>("c", vec![Some(5), Some(6), Some(7), Some(8)]);
    let s = y.slice(1, 2);
    let z = x.cbind_slice(&s);
    assert_eq!(z.get::<i32>("c").unwrap(), vec![Some(6), Some(7)]);
}

#[test]
fn slice_to_df_copies_rows() {
    let x = df_ab(vec![Some(1), Some(2), Some(3)], vec![None, Some(true), Some(false)]);
    let s = x.slice(1, 2);
    let d = s.to_df();
    assert_eq!(d.n_row(), 2);
    assert_eq!(d.get::<i32>("a").unwrap(), vec![Some(2), Some(3)]);
}

#[test]
fn bind_by_value_and_by_reference_agree() {
    let x = df_ab(vec![Some(1), None], vec![Some(true), Some(false)]);
    let y = df_ab(vec![Some(4)], vec![None]);
    let by_ref = x.rbind_ref(&y).unwrap();
    let by_val = df_ab(vec![Some(1), None], vec![Some(true), Some(false)]).rbind(df_ab(vec![Some(4)], vec![None])).unwrap();
    assert_eq!(by_ref.col_names().clone(), by_val.col_names().clone());
    assert_eq!(by_ref.get::<i32>("a").unwrap(), by_val.get::<i32>("a").unwrap());
    assert_eq!(by_ref.get::<bool>("b").unwrap(), by_val.get::<bool>("b").unwrap());
    let mut z = DataFrame::new();
    z.add_col::<usize>("c", vec![Some(7)]);
    let side_ref = x.cbind_ref(&z);
    let side_val = df_ab(vec![Some(1), None], vec![Some(true), Some(false)]).cbind(z);
    assert_eq!(side_ref.col_names().clone(), strs(&["a", "b", "c"]));
    assert_eq!(side_ref.col_names().clone(), side_val.col_names().clone());
    assert_eq!(side_ref.get::<usize>("c").unwrap(), vec![Some(7), Some(7)]);
    assert_eq!(side_ref.get::<usize>("c").unwrap(), side_val.get::<usize>("c").unwrap());
    assert_eq!(side_ref.get::<i32>("a").unwrap(), side_val.get::<i32>("a").unwrap());
}
