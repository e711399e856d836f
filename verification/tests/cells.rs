use stryke_office::value::{to_json, Number, Value};

fn conv(j: &serde_json::Value) -> Value {
    match j {
        serde_json::Value::Null => Value::Null,
        serde_json::Value::Bool(b) => Value::Bool(*b),
        serde_json::Value::Number(n) => {
            if let Some(u) = n.as_u64() {
                Value::Number(Number::Unsigned(u))
            } else if let Some(i) = n.as_i64() {
                Value::Number(Number::Negative(i))
            } else {
                let bits = n.as_f64().unwrap().to_bits();
                Value::Number(Number::Float { bits, text: n.to_string() })
            }
        }
        serde_json::Value::String(s) => Value::Text(s.clone()),
        serde_json::Value::Array(a) => Value::Array(a.iter().map(conv).collect()),
        serde_json::Value::Object(o) => {
            Value::Object(o.iter().map(|(k, v)| (k.clone(), conv(v))).collect())
        }
    }
}

fn val(s: &str) -> Value {
    conv(&serde_json::from_str::<serde_json::Value>(s).unwrap())
}

fn js(v: &Value) -> serde_json::Value {
    serde_json::from_str(&to_json(v)).unwrap()
}

fn want(s: &str) -> serde_json::Value {
    serde_json::from_str(s).unwrap()
}

fn list(s: &str) -> Vec<Value> {
    match val(s) {
        Value::Array(a) => a,
        _ => panic!("no list"),
    }
}

fn grid(s: &str) -> Vec<Vec<Value>> {
    list(s)
        .into_iter()
        .map(|r| match r {
            Value::Array(a) => a,
            _ => panic!("no row"),
        })
        .collect()
}

fn seen(rows: &Vec<Vec<Value>>) -> serde_json::Value {
    serde_json::Value::Array(
        rows.iter().map(|r| serde_json::Value::Array(r.iter().map(js).collect())).collect(),
    )
}

fn seen_list(items: &Vec<Value>) -> serde_json::Value {
    serde_json::Value::Array(items.iter().map(js).collect())
}

fn reading(v: &Value) -> Option<u64> {
    match v {
        Value::Number(Number::Unsigned(u)) => Some((*u as f64).to_bits()),
        Value::Number(Number::Negative(i)) => Some((*i as f64).to_bits()),
        Value::Number(Number::Float { bits, .. }) => Some(*bits),
        Value::Text(s) => s.trim().parse::<f64>().ok().map(f64::to_bits),
        _ => None,
    }
}

fn nums(rows: &Vec<Vec<Value>>) -> Vec<Vec<Option<u64>>> {
    rows.iter().map(|r| r.iter().map(reading).collect()).collect()
}

fn bits(xs: &[f64]) -> Vec<u64> {
    xs.iter().map(|x| x.to_bits()).collect()
}

use stryke_office::edits::{
    is_block_in_bounds, op_sheet_delete_rows, op_sheet_get_cell, op_sheet_get_range,
    op_sheet_insert_column, op_sheet_insert_rows, op_sheet_quantile, op_sheet_read,
    op_sheet_set_cell, op_sheet_set_range, op_sheet_top, op_json_to_sheet, place_formulas,
    SheetSource,
};
use stryke_office::grid::{choose_sheet, col_letters, parse_a1, parse_range};

fn book() -> Vec<(String, Vec<Vec<Value>>)> {
    vec![
        ("One".to_string(), grid(r#"[["name","n"],["ann",3],["bob",1.5],["cid","2"]]"#)),
        ("Two".to_string(), grid(r#"[[1,2],[3]]"#)),
    ]
}

#[test]
fn references_name_rows_and_columns() {
    assert_eq!(parse_a1("A1"), Some((0, 0)));
    assert_eq!(parse_a1("b2"), Some((1, 1)));
    assert_eq!(parse_a1(" AA10 "), Some((9, 26)));
    assert_eq!(parse_a1("A0"), None);
    assert_eq!(parse_a1("12"), None);
    assert_eq!(parse_a1("A"), None);
    assert_eq!(parse_a1("A1B"), None);
    assert_eq!(col_letters(0), "A");
    assert_eq!(col_letters(25), "Z");
    assert_eq!(col_letters(26), "AA");
    assert_eq!(col_letters(701), "ZZ");
    assert_eq!(col_letters(702), "AAA");
}

#[test]
fn written_references_read_back() {
    for col in [0usize, 1, 25, 26, 51, 52, 700, 701, 702, 20000] {
        for row in [0usize, 8, 9, 99999] {
            let text = format!("{}{}", col_letters(col), row + 1);
            assert_eq!(parse_a1(&text), Some((row, col)));
        }
    }
}

#[test]
fn ranges_are_put_in_order() {
    assert_eq!(parse_range("B3:A1"), Ok((0, 0, 2, 1)));
    assert_eq!(parse_range("C2"), Ok((1, 2, 1, 2)));
    assert_eq!(parse_range("A1:x").err().unwrap(), "bad A1 reference: x");
}

#[test]
fn a_cell_that_was_set_is_read() {
    let opts = val(r#"{"cell":"D6","value":{"deep":[1,2]},"sheet":"Two"}"#);
    let after = op_sheet_set_cell(&opts, book()).unwrap();
    assert_eq!(after[1].1.len(), 6);
    assert_eq!(after[1].1[5].len(), 4);
    let (r, c, v) = op_sheet_get_cell(&opts, &after).unwrap();
    assert_eq!((r, c), (5, 3));
    assert_eq!(js(&v), want(r#"{"deep":[1,2]}"#));
    assert_eq!(seen(&after[0].1), seen(&book()[0].1));
}

#[test]
fn set_cell_makes_a_sheet_where_there_is_none() {
    let after = op_sheet_set_cell(&val(r#"{"cell":"B1","value":7}"#), vec![]).unwrap();
    assert_eq!(after.len(), 1);
    assert_eq!(after[0].0, "Sheet1");
    assert_eq!(seen(&after[0].1), want("[[null,7]]"));
}

#[test]
fn set_cell_complains() {
    assert_eq!(op_sheet_set_cell(&val("{}"), book()).err().unwrap(), "missing cell");
    assert_eq!(
        op_sheet_set_cell(&val(r#"{"cell":"7"}"#), book()).err().unwrap(),
        "bad A1 reference: 7"
    );
    assert_eq!(
        op_sheet_set_cell(&val(r#"{"cell":"A1","sheet":"Three"}"#), book()).err().unwrap(),
        "sheet not found"
    );
}

#[test]
fn reading_outside_gives_null() {
    let (_, _, v) = op_sheet_get_cell(&val(r#"{"cell":"Z99"}"#), &book()).unwrap();
    assert_eq!(js(&v), want("null"));
    assert_eq!(
        op_sheet_get_cell(&val(r#"{"cell":"A1"}"#), &vec![]).err().unwrap(),
        "sheet not found"
    );
}

#[test]
fn a_block_is_written_and_read() {
    let opts = val(r#"{"cell":"B2","values":[[1,2],"skipped",[3]],"sheet":1,"range":"A2:C4"}"#);
    assert!(is_block_in_bounds(&opts));
    let (after, written) = op_sheet_set_range(&opts, book()).unwrap();
    assert_eq!(written, 3);
    assert_eq!(seen(&after[1].1), want("[[1,2],[3,1,2],[],[null,3]]"));
    let part = op_sheet_get_range(&opts, &after).unwrap();
    assert_eq!(seen(&part), want("[[3,1,2],[null,null,null],[null,3,null]]"));
    assert_eq!(
        op_sheet_set_range(&val(r#"{"cell":"A1"}"#), book()).err().unwrap(),
        "missing values (expected array of rows)"
    );
}

#[test]
fn rows_go_in_and_out() {
    let opts = val(r#"{"at":2,"count":3}"#);
    let more = op_sheet_insert_rows(&opts, book()).unwrap();
    assert_eq!(more[0].1.len(), 7);
    assert_eq!(more[0].1[1].len(), 0);
    let (back, deleted) = op_sheet_delete_rows(&opts, more).unwrap();
    assert_eq!(deleted, 3);
    assert_eq!(seen(&back[0].1), seen(&book()[0].1));
    let (rest, gone) = op_sheet_delete_rows(&val(r#"{"at":3,"count":99}"#), book()).unwrap();
    assert_eq!((rest[0].1.len(), gone), (2, 2));
    assert_eq!(
        op_sheet_delete_rows(&val(r#"{"at":0}"#), book()).err().unwrap(),
        "missing at (1-based row number)"
    );
}

#[test]
fn a_column_goes_in() {
    let opts = val(r#"{"at":2,"name":"x","value":0}"#);
    let after = op_sheet_insert_column(&opts, book()).unwrap();
    assert_eq!(
        seen(&after[0].1),
        want(r#"[["name","x","n"],["ann",0,3],["bob",0,1.5],["cid",0,"2"]]"#)
    );
}

#[test]
fn sheets_are_chosen_by_name_or_number() {
    assert_eq!(choose_sheet(&val(r#"{"sheet":"Two"}"#), &book()), Ok(1));
    assert_eq!(choose_sheet(&val(r#"{"sheet":1}"#), &book()), Ok(1));
    assert_eq!(choose_sheet(&val("{}"), &book()), Ok(0));
    assert_eq!(choose_sheet(&val(r#"{"sheet":2}"#), &book()).err().unwrap(), "sheet not found");
}

#[test]
fn sources_go_by_extension() {
    assert!(op_sheet_read(&val("{}"), "a/b.ODS") == SheetSource::Ods);
    assert!(op_sheet_read(&val("{}"), "b.csv") == SheetSource::Delimited(','));
    assert!(op_sheet_read(&val("{}"), "b.tsv") == SheetSource::Delimited('\t'));
    assert!(op_sheet_read(&val(r#"{"delimiter":";|"}"#), "b.csv") == SheetSource::Delimited(';'));
    assert!(op_sheet_read(&val("{}"), "b.xlsx") == SheetSource::Workbook);
}

#[test]
fn formulas_line_up_with_cells() {
    let rows = vec![vec!["=A1".to_string()], vec![]];
    let placed = place_formulas(&rows, 2, 1);
    assert_eq!(placed.len(), 4);
    assert!(placed[0].is_empty() && placed[1].is_empty() && placed[3].is_empty());
    assert_eq!(placed[2], vec!["".to_string(), "=A1".to_string()]);
    assert!(place_formulas(&vec![], 5, 5).is_empty());
}

#[test]
fn quantiles_are_taken_of_sorted_numbers() {
    let rows = &book()[0].1;
    let (name, ns) = op_sheet_quantile(rows, &nums(rows), true, 1);
    assert_eq!(name, "n");
    assert_eq!(ns, bits(&[1.5, 2.0, 3.0]));
}

#[test]
fn the_best_rows_are_sorted_and_cut() {
    let opts = val(r#"{"path":"a.csv","output":"b.csv","by":"n","ascending":1,"sheet":"S"}"#);
    let (sort, head) = op_sheet_top(&opts).unwrap();
    assert_eq!(
        js(&sort),
        want(r#"{"path":"a.csv","by":"n","output":"b.csv","descending":false,"sheet":"S"}"#)
    );
    assert_eq!(js(&head), want(r#"{"path":"b.csv","output":"b.csv","n":10,"sheet":"S"}"#));
    assert_eq!(
        op_sheet_top(&val(r#"{"path":"a","output":"b"}"#)).err().unwrap(),
        "missing by (column name or index)"
    );
    assert_eq!(op_sheet_top(&val(r#"{"path":"a"}"#)).err().unwrap(), "missing output");
}

#[test]
fn records_from_elsewhere_are_written_with_the_same_options() {
    let opts = val(r#"{"input":"x.json","fields":["a"],"format":"csv"}"#);
    let w = op_json_to_sheet(&opts, "out.csv", list(r#"[{"a":1}]"#));
    assert_eq!(
        js(&w),
        want(r#"{"path":"out.csv","records":[{"a":1}],"fields":["a"],"format":"csv"}"#)
    );
}

#[test]
fn texts_are_quoted_as_json() {
    let t = "a\"\\/\u{8}\t\n\u{c}\r\u{1}\u{1f}\u{7f}\u{e9}";
    assert_eq!(
        to_json(&Value::Text(t.to_string())),
        "\"a\\\"\\\\/\\b\\t\\n\\f\\r\\u0001\\u001f\u{7f}\u{e9}\""
    );
}
