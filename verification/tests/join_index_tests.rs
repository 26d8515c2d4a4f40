use rlike::data_frame::frame::{DataFrame, DfError};
use rlike::data_frame::query::Query;
use rlike::data_frame::join::{Join, JoinType, JoinError};
use rlike::data_frame::index::RowIndexType;

fn strs(v: &[&str]) -> Vec<String> {
    v.iter().map(|x| x.to_string()).collect()
}

fn left() -> DataFrame {
    let mut df = DataFrame::new();
    df.add_col::<i32>("k", vec![Some(1), Some(2), Some(3)]);
    df.add_col::<bool>("x", vec![Some(true), Some(false), Some(true)]);
    df
}

fn right() -> DataFrame {
    let mut df = DataFrame::new();
    df.add_col::<i32>("k", vec![Some(3), Some(1), Some(4)]);
    df.add_col::<usize>("y", vec![Some(30), Some(10), Some(40)]);
    df
}

fn join_of(sorted: bool, jt: JoinType) -> Join {
    let mut j = Join::new();
    j.sorted = sorted;
    j.set_join_type(jt);
    j.key_cols = strs(&["k"]);
    j.cols_all = vec![strs(&["k", "x"]), strs(&["k", "y"])];
    j.cols_non_key = vec![strs(&["x"]), strs(&["y"])];
    j.cols_out = vec![strs(&["k", "x"]), strs(&["k", "y"])];
    j
}

fn key_query(df: &DataFrame) -> Query {
    let mut q = Query::new();
    q.set_sort_cols(df, strs(&["k"])).unwrap();
    q
}

#[test]
fn join_config_checks() {
    let j = join_of(false, JoinType::Inner);
    assert!(j.check_config().is_ok());
    let j = join_of(false, JoinType::Outer);
    assert!(matches!(j.check_config(), Err(JoinError::OuterUnsorted)));
    let mut j = join_of(true, JoinType::Inner);
    j.cols_all[1] = strs(&["y"]);
    assert!(matches!(j.check_config(), Err(JoinError::KeyColumnMissing(2))));
    assert!(Join::a_lacks_b_element(&strs(&["a"]), &strs(&["a", "b"])));
    assert!(Join::has_shared_values(&strs(&["a", "c"]), &strs(&["c"])));
}

#[test]
fn join_inner_unsorted() {
    let (l, r) = (left(), right());
    let mut j = join_of(false, JoinType::Inner);
    let out = j.execute_join(vec![&l, &r], vec![key_query(&l), key_query(&r)]).unwrap();
    assert_eq!(out.col_names().clone(), strs(&["k", "x", "y"]));
    assert_eq!(out.get::<i32>("k").unwrap(), vec![Some(1), Some(3)]);
    assert_eq!(out.get::<usize>("y").unwrap(), vec![Some(10), Some(30)]);
}

#[test]
fn join_left_keeps_unmatched_left_rows() {
    let (l, r) = (left(), right());
    let mut j = join_of(false, JoinType::Left);
    let out = j.execute_join(vec![&l, &r], vec![key_query(&l), key_query(&r)]).unwrap();
    assert_eq!(out.get::<i32>("k").unwrap(), vec![Some(1), Some(2), Some(3)]);
    assert_eq!(out.get::<usize>("y").unwrap(), vec![Some(10), None, Some(30)]);
}

#[test]
fn join_outer_sorted() {
    let (l, r) = (left(), right());
    let mut j = join_of(true, JoinType::Outer);
    let out = j.execute_join(vec![&l, &r], vec![key_query(&l), key_query(&r)]).unwrap();
    assert_eq!(out.get::<i32>("k").unwrap(), vec![Some(1), Some(2), Some(3), Some(4)]);
    assert_eq!(out.get::<bool>("x").unwrap(), vec![Some(true), Some(false), Some(true), None]);
    assert_eq!(out.get::<usize>("y").unwrap(), vec![Some(10), None, Some(30), Some(40)]);
}

#[test]
fn join_string_key_refused() {
    let mut l = DataFrame::new();
    l.add_col::<String>("k", vec![Some("a".to_string())]);
    l.add_col::<bool>("x", vec![Some(true)]);
    let mut r = DataFrame::new();
    r.add_col::<String>("k", vec![Some("a".to_string())]);
    r.add_col::<usize>("y", vec![Some(1)]);
    let mut j = join_of(false, JoinType::Inner);
    assert!(matches!(j.execute_join(vec![&l, &r], vec![key_query(&l), key_query(&r)]), Err(DfError::StringKey(_))));
}

#[test]
fn index_hashed_lookup() {
    let mut df = DataFrame::new();
    df.add_col::<i32>("k", vec![Some(2), Some(1), Some(2), Some(3)]);
    df.add_col::<usize>("v", vec![Some(20), Some(10), Some(21), Some(30)]);
    let df = df.set_index(strs(&["k"])).ok().unwrap();
    assert!(df.row_index.index_type == RowIndexType::Hashed);
    let mut dk = DataFrame::new();
    dk.add_col::<i32>("k", vec![Some(2)]);
    let s = df.get_indexed(dk).ok().unwrap();
    assert_eq!(s.n_row, 2);
    assert_eq!(s.to_df().get::<usize>("v").unwrap(), vec![Some(20), Some(21)]);
    let mut missing = DataFrame::new();
    missing.add_col::<i32>("k", vec![Some(9)]);
    assert_eq!(df.get_indexed(missing).ok().unwrap().n_row, 0);
}

#[test]
fn index_errors() {
    let df = left();
    let mut dk = DataFrame::new();
    dk.add_col::<i32>("k", vec![Some(1)]);
    assert!(matches!(df.get_indexed(dk), Err(DfError::NotIndexed)));
    assert!(matches!(left().set_index(strs(&["zz"])), Err(DfError::ColumnNotFound(n)) if n == "zz"));
    let mut sdf = DataFrame::new();
    sdf.add_col::<String>("s", vec![Some("a".to_string())]);
    assert!(matches!(sdf.set_index(strs(&["s"])), Err(DfError::StringKey(_))));
}

#[test]
fn join_sorted_and_unsorted_inner_agree() {
    let (l, r) = (left(), right());
    let mut ju = join_of(false, JoinType::Inner);
    let mut js = join_of(true, JoinType::Inner);
    let a = ju.execute_join(vec![&l, &r], vec![key_query(&l), key_query(&r)]).unwrap();
    let b = js.execute_join(vec![&l, &r], vec![key_query(&l), key_query(&r)]).unwrap();
    assert_eq!(a.get::<i32>("k").unwrap(), b.get::<i32>("k").unwrap());
    assert_eq!(a.get::<bool>("x").unwrap(), b.get::<bool>("x").unwrap());
    assert_eq!(a.get::<usize>("y").unwrap(), b.get::<usize>("y").unwrap());
}

#[test]
fn index_lookup_finds_every_matching_row() {
    let mut df = DataFrame::new();
    df.add_col::<i32>("k", vec![Some(5), Some(7), Some(5), Some(7), Some(5)]);
    df.add_col::<usize>("v", vec![Some(0), Some(1), Some(2), Some(3), Some(4)]);
    let df = df.set_index(strs(&["k"])).ok().unwrap();
    let mut dk = DataFrame::new();
    dk.add_col::<i32>("k", vec![Some(5)]);
    let s = df.get_indexed(dk).ok().unwrap();
    let found = s.to_df();
    assert_eq!(found.get::<i32>("k").unwrap(), vec![Some(5), Some(5), Some(5)]);
    let mut vs = found.get::<usize>("v").unwrap();
    vs.sort();
    assert_eq!(vs, vec![Some(0), Some(2), Some(4)]);
}

#[test]
fn join_config_refusals() {
    let mut j = join_of(false, JoinType::Inner);
    j.n_dfs = 1;
    assert!(matches!(j.check_config(), Err(JoinError::TooFewDataFrames)));
    let mut j = join_of(false, JoinType::Inner);
    j.key_cols = strs(&["k", "k", "k", "k", "k", "k", "k", "k", "k"]);
    assert!(matches!(j.check_config(), Err(JoinError::TooManyKeyColumns)));
    let mut j = join_of(false, JoinType::Inner);
    j.cols_non_key[1] = strs(&["k"]);
    assert!(matches!(j.check_config(), Err(JoinError::NonKeyIsKey(2))));
    let mut j = join_of(false, JoinType::Inner);
    j.cols_non_key[1] = strs(&["x"]);
    assert!(matches!(j.check_config(), Err(JoinError::NonKeyShared)));
}

#[test]
fn join_config_refuses_no_keys() {
    let mut j = join_of(false, JoinType::Inner);
    j.key_cols = Vec::new();
    assert!(matches!(j.check_config(), Err(JoinError::NoKeyColumns)));
}

#[test]
fn join_hash_left_keeps_left_and_match_order() {
    let mut l = DataFrame::new();
    l.add_col::<i32>("k", vec![Some(1), Some(2)]);
    l.add_col::<i32>("a", vec![Some(10), Some(20)]);
    let mut r = DataFrame::new();
    r.add_col::<i32>("k", vec![Some(2), Some(3), Some(2)]);
    r.add_col::<i32>("b", vec![Some(7), Some(8), Some(9)]);
    let mut j = Join::new();
    j.sorted = false;
    j.set_join_type(JoinType::Left);
    j.key_cols = strs(&["k"]);
    j.cols_all = vec![strs(&["k", "a"]), strs(&["k", "b"])];
    j.cols_non_key = vec![strs(&["a"]), strs(&["b"])];
    j.cols_out = vec![strs(&["k", "a"]), strs(&["k", "b"])];
    let out = j.execute_join(vec![&l, &r], vec![key_query(&l), key_query(&r)]).unwrap();
    assert_eq!(out.col_names().clone(), strs(&["k", "a", "b"]));
    assert_eq!(out.get::<i32>("k").unwrap(), vec![Some(1), Some(2), Some(2)]);
    assert_eq!(out.get::<i32>("a").unwrap(), vec![Some(10), Some(20), Some(20)]);
    assert_eq!(out.get::<i32>("b").unwrap(), vec![None, Some(7), Some(9)]);
}

#[test]
fn join_two_dfs_last_join_without_cols_all() {
    let mut l = DataFrame::new();
    l.add_col::<i32>("k", vec![Some(1), Some(2)]);
    l.add_col::<i32>("a", vec![Some(10), Some(20)]);
    let mut r = DataFrame::new();
    r.add_col::<i32>("k", vec![Some(2), Some(3), Some(2)]);
    r.add_col::<i32>("b", vec![Some(7), Some(8), Some(9)]);
    let mut j = Join::new();
    j.sorted = false;
    j.set_join_type(JoinType::Left);
    j.key_cols = strs(&["k"]);
    j.cols_non_key = vec![strs(&["a"]), strs(&["b"])];
    j.cols_out = vec![strs(&["k", "a"]), strs(&["k", "b"])];
    let mut ql = key_query(&l);
    let mut qr = key_query(&r);
    let d = j.join_two_dfs(&l, &r, &mut ql, &mut qr, 0, 1, true).unwrap();
    assert_eq!(d.col_names().clone(), strs(&["k", "a", "b"]));
    assert_eq!(d.n_row(), 3);
    assert_eq!(d.get::<i32>("k").unwrap(), vec![Some(1), Some(2), Some(2)]);
    assert_eq!(d.get::<i32>("a").unwrap(), vec![Some(10), Some(20), Some(20)]);
    assert_eq!(d.get::<i32>("b").unwrap(), vec![None, Some(7), Some(9)]);
    assert!(j.cols_all.is_empty());
}

#[test]
fn join_three_is_left_fold_of_pairs() {
    let l = left();
    let r = right();
    let mut c = DataFrame::new();
    c.add_col::<i32>("k", vec![Some(1), Some(3), Some(3)]);
    c.add_col::<i32>("z", vec![Some(100), Some(300), Some(301)]);
    let mut j3 = Join::new();
    j3.n_dfs = 3;
    j3.set_join_type(JoinType::Inner);
    j3.key_cols = strs(&["k"]);
    j3.cols_all = vec![strs(&["k", "x"]), strs(&["k", "y"]), strs(&["k", "z"])];
    j3.cols_non_key = vec![strs(&["x"]), strs(&["y"]), strs(&["z"])];
    j3.cols_out = vec![strs(&["k", "x"]), strs(&["k", "y"]), strs(&["k", "z"])];
    let all3 = j3.execute_join(vec![&l, &r, &c], vec![key_query(&l), key_query(&r), key_query(&c)]).unwrap();
    let mut j2 = join_of(false, JoinType::Inner);
    let ab = j2.execute_join(vec![&l, &r], vec![key_query(&l), key_query(&r)]).unwrap();
    let mut jb = Join::new();
    jb.set_join_type(JoinType::Inner);
    jb.key_cols = strs(&["k"]);
    jb.cols_all = vec![strs(&["k", "x", "y"]), strs(&["k", "z"])];
    jb.cols_non_key = vec![strs(&["x", "y"]), strs(&["z"])];
    jb.cols_out = vec![strs(&["k", "x", "y"]), strs(&["k", "z"])];
    let folded = jb.execute_join(vec![&ab, &c], vec![key_query(&ab), key_query(&c)]).unwrap();
    assert_eq!(all3.col_names().clone(), strs(&["k", "x", "y", "z"]));
    assert_eq!(folded.col_names().clone(), all3.col_names().clone());
    assert_eq!(all3.get::<i32>("k").unwrap(), vec![Some(1), Some(3), Some(3)]);
    assert_eq!(all3.get::<i32>("z").unwrap(), vec![Some(100), Some(300), Some(301)]);
    assert_eq!(folded.get::<i32>("k").unwrap(), all3.get::<i32>("k").unwrap());
    assert_eq!(folded.get::<bool>("x").unwrap(), all3.get::<bool>("x").unwrap());
    assert_eq!(folded.get::<usize>("y").unwrap(), all3.get::<usize>("y").unwrap());
    assert_eq!(folded.get::<i32>("z").unwrap(), all3.get::<i32>("z").unwrap());
}
