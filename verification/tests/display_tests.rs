use rlike::data_frame::display::table_text;
use rlike::data_frame::frame::DataFrame;
use rlike::types::NumBits;

fn strings(v: &[&str]) -> Vec<String> {
    v.iter().map(|s| s.to_string()).collect()
}

#[test]
fn table_text_fits_and_cuts_columns() {
    let names = strings(&["a", "bb"]);
    let types = strings(&["i32", "String"]);
    let cells = vec![strings(&["1", "22"]), strings(&["x", "yyyyyyyyyy"])];
    let s = table_text(&names, &types, &cells, 2, 10, 8);
    let expected = String::new()
        + "\nDataFrame: 2 rows × 2 columns\n"
        + "a <i32> bb <Str… \n"
        + "------- -------- \n"
        + "1       x        \n"
        + "22      yyyyyyy… \n";
    assert_eq!(s, expected);
}

#[test]
fn table_text_shows_at_most_max_rows() {
    let names = strings(&["a", "bb"]);
    let types = strings(&["i32", "String"]);
    let cells = vec![strings(&["1"]), strings(&["x"])];
    let s = table_text(&names, &types, &cells, 2, 1, 8);
    let expected = String::new()
        + "\nDataFrame: 2 rows × 2 columns\n"
        + "a <i32> bb <Str… \n"
        + "------- -------- \n"
        + "1       x        \n"
        + "...\n";
    assert_eq!(s, expected);
}

#[test]
fn table_text_counts_bytes_and_pads_characters() {
    let names = strings(&["é"]);
    let types = strings(&["x"]);
    let cells = vec![strings(&["é"])];
    let s = table_text(&names, &types, &cells, 1, 10, 20);
    let expected = String::new()
        + "\nDataFrame: 1 rows × 1 columns\n"
        + "é <x>  \n"
        + "------ \n"
        + "é      \n";
    assert_eq!(s, expected);
}

#[test]
fn table_text_of_no_columns() {
    let s = table_text(&Vec::new(), &Vec::new(), &Vec::new(), 0, 10, 8);
    assert_eq!(s, "\nDataFrame: 0 rows × 0 columns\n\n\n");
}

#[test]
fn print_text_shows_types_without_module_path() {
    let mut df = DataFrame::new();
    df.add_col::<i32>("a", vec![Some(1), None]);
    df.add_col::<String>("s", vec![Some("x".to_string()), Some("yy".to_string())]);
    df.add_col::<NumBits>("x", vec![Some(NumBits(1.5f64.to_bits())), None]);
    let s = df.print_text(|b: NumBits| f64::from_bits(b.0).to_string());
    let expected = String::new()
        + "\nDataFrame: 2 rows × 3 columns\n"
        + "a <i32> s <String> x <f64> \n"
        + "------- ---------- ------- \n"
        + "1       x          1.5     \n"
        + "NA      yy         NA      \n";
    assert_eq!(s, expected);
}
