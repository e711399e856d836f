use stryke_office::value::{to_json, Number, Value};

fn conv(j: &serde_json::Value) -> Value {
    match j {
        serde_json::Value::Null => Value::Null,
        serde_json::Value::Bool(b) => Value::Bool(*b),
        serde_json::Value::Number(n) => {
            if let Some(u) = n.as_u64() {
                Value::Number(Number::Unsigned(u))
            } else if let Some(i) = n.as_i64() {
                Value::Number(Number::Negative(i))
            } else {
                let bits = n.as_f64().unwrap().to_bits();
                Value::Number(Number::Float { bits, text: n.to_string() })
            }
        }
        serde_json::Value::String(s) => Value::Text(s.clone()),
        serde_json::Value::Array(a) => Value::Array(a.iter().map(conv).collect()),
        serde_json::Value::Object(o) => {
            Value::Object(o.iter().map(|(k, v)| (k.clone(), conv(v))).collect())
        }
    }
}

fn val(s: &str) -> Value {
    conv(&serde_json::from_str::<serde_json::Value>(s).unwrap())
}

fn js(v: &Value) -> serde_json::Value {
    serde_json::from_str(&to_json(v)).unwrap()
}

fn want(s: &str) -> serde_json::Value {
    serde_json::from_str(s).unwrap()
}

fn list(s: &str) -> Vec<Value> {
    match val(s) {
        Value::Array(a) => a,
        _ => panic!("no list"),
    }
}

fn grid(s: &str) -> Vec<Vec<Value>> {
    list(s)
        .into_iter()
        .map(|r| match r {
            Value::Array(a) => a,
            _ => panic!("no row"),
        })
        .collect()
}

fn seen(rows: &Vec<Vec<Value>>) -> serde_json::Value {
    serde_json::Value::Array(
        rows.iter().map(|r| serde_json::Value::Array(r.iter().map(js).collect())).collect(),
    )
}

fn seen_list(items: &Vec<Value>) -> serde_json::Value {
    serde_json::Value::Array(items.iter().map(js).collect())
}

fn reading(v: &Value) -> Option<u64> {
    match v {
        Value::Number(Number::Unsigned(u)) => Some((*u as f64).to_bits()),
        Value::Number(Number::Negative(i)) => Some((*i as f64).to_bits()),
        Value::Number(Number::Float { bits, .. }) => Some(*bits),
        Value::Text(s) => s.trim().parse::<f64>().ok().map(f64::to_bits),
        _ => None,
    }
}

fn nums(rows: &Vec<Vec<Value>>) -> Vec<Vec<Option<u64>>> {
    rows.iter().map(|r| r.iter().map(reading).collect()).collect()
}

fn bits(xs: &[f64]) -> Vec<u64> {
    xs.iter().map(|x| x.to_bits()).collect()
}

use stryke_office::columns::{
    clamp_bounds, column_numbers, op_sheet_clamp, op_sheet_delta, op_sheet_explode, op_sheet_map,
    op_sheet_movavg, op_sheet_partition, op_sheet_rename_column, paths_of_partition, resolve_col,
    sanitize_key,
};
use stryke_office::groups::{
    group_tallies, greatest_of, least_of, op_sheet_aggregate, op_sheet_freq,
    op_sheet_group_concat, op_sheet_pivot, ordered_keys, pivot_tallies, read_agg, value_column,
};
use stryke_office::ordering::{
    op_sheet_countif, op_sheet_filter, op_sheet_lookup, op_sheet_multisort, op_sheet_rank,
    op_sheet_sort, op_sheet_sumif, op_sheet_where, read_condition, read_conditions, sort_keys,
    sheet_cell_blank, text_before,
};
use stryke_office::records::{
    check_cell, ndjson_lines, op_records_write, op_sheet_find, op_sheet_records, op_sheet_validate,
    read_rule,
};
use stryke_office::sampling::{
    op_sheet_chunk, op_sheet_head, op_sheet_sample, path_of_chunk, read_seed, xorshift64,
};
use stryke_office::stats::{
    describe_column, op_sheet_corr, op_sheet_cumsum, op_sheet_describe, op_sheet_normalize,
    op_sheet_pct, op_sheet_stats, read_method, sort_numbers_up, Computed,
};

fn sales() -> Vec<Vec<Value>> {
    grid(r#"[["who","what","n"],["ann","pen",3],["bob","ink",1],["ann","ink",2],["cid","pen",""],["bob","pen",10]]"#)
}

#[test]
fn sorting_by_number_and_by_text() {
    let rows = sales();
    let by_n = op_sheet_sort(&val("{}"), &rows, &nums(&rows), true, 2);
    assert_eq!(
        seen(&by_n),
        want(r#"[["who","what","n"],["bob","ink",1],["ann","ink",2],["ann","pen",3],["bob","pen",10],["cid","pen",""]]"#)
    );
    let by_text = op_sheet_sort(&val(r#"{"numeric":0,"descending":1}"#), &rows, &nums(&rows), true, 2);
    assert_eq!(
        seen(&by_text),
        want(r#"[["who","what","n"],["ann","pen",3],["ann","ink",2],["bob","pen",10],["bob","ink",1],["cid","pen",""]]"#)
    );
}

#[test]
fn equal_keys_keep_their_order() {
    let rows = sales();
    let sorted = op_sheet_sort(&val("{}"), &rows, &nums(&rows), true, 0);
    assert_eq!(
        seen(&sorted),
        want(r#"[["who","what","n"],["ann","pen",3],["ann","ink",2],["bob","ink",1],["bob","pen",10],["cid","pen",""]]"#)
    );
}

#[test]
fn sorting_by_several_keys() {
    let rows = sales();
    let opts = val(r#"{"keys":[{"column":"what"},{"column":"n","descending":true}]}"#);
    let keys = sort_keys(&opts, true, &rows).unwrap();
    let sorted = op_sheet_multisort(&rows, &nums(&rows), true, &keys);
    assert_eq!(js(&sorted[1][1]), want(r#""ink""#));
    assert_eq!(js(&sorted[1][2]), want("2"));
    assert_eq!(js(&sorted[2][2]), want("1"));
    assert!(sort_keys(&val("{}"), true, &rows).is_err());
}

#[test]
fn ranks_skip_or_run_on() {
    let v: Vec<Option<u64>> =
        [10.0, 20.0, 10.0, 5.0].iter().map(|x: &f64| Some(x.to_bits())).collect();
    assert_eq!(op_sheet_rank(&v, false, false), vec![Some(2), Some(1), Some(2), Some(4)]);
    assert_eq!(op_sheet_rank(&v, true, true), vec![Some(2), Some(3), Some(2), Some(1)]);
    assert_eq!(op_sheet_rank(&vec![None], true, true), vec![None]);
}

#[test]
fn rows_are_filtered() {
    let rows = sales();
    let c = read_condition(&val(r#"{"op":"ge","value":2}"#), Some(2f64.to_bits()));
    let (kept, matched, _) = op_sheet_filter(&rows, &nums(&rows), true, 2, c);
    assert_eq!(matched, 3);
    assert_eq!(kept.len(), 4);
    let c = read_condition(&val(r#"{"op":"contains","value":"EN","ignore_case":1}"#), None);
    assert_eq!(op_sheet_countif(&rows, &nums(&rows), true, 1, c), 3);
    let c = read_condition(&val(r#"{"op":"eq","value":"ann"}"#), None);
    let (terms, count) = op_sheet_sumif(&rows, &nums(&rows), true, 0, &c, 2);
    assert_eq!(terms, bits(&[3.0, 2.0]));
    assert_eq!(count, 2);
}

#[test]
fn conditions_are_joined() {
    let rows = sales();
    let opts = val(r#"{"conditions":[{"column":"who","op":"eq","value":"ann"},{"column":"what","op":"eq","value":"ink"}]}"#);
    let conds = read_conditions(&opts, &vec![None, None], true, &rows).unwrap();
    let (all, n) = op_sheet_where(&rows, &nums(&rows), true, &conds, false);
    assert_eq!((all.len(), n), (2, 1));
    let (any, m) = op_sheet_where(&rows, &nums(&rows), true, &conds, true);
    assert_eq!((any.len(), m), (4, 3));
}

#[test]
fn lookups_find_the_first_row() {
    let rows = sales();
    let (r, v) = op_sheet_lookup(&rows, true, 0, 2, "BOB", true).unwrap();
    assert_eq!(r, 1);
    assert_eq!(js(&v), want("1"));
    assert!(op_sheet_lookup(&rows, true, 0, 2, "BOB", false).is_none());
}

#[test]
fn columns_are_found_by_name_or_number() {
    let rows = sales();
    assert_eq!(resolve_col(Some(&val(r#""what""#)), true, &rows), Ok(1));
    assert_eq!(resolve_col(Some(&val("2")), true, &rows), Ok(2));
    assert_eq!(
        resolve_col(Some(&val(r#""zzz""#)), true, &rows).err().unwrap(),
        "column not found: zzz"
    );
    assert_eq!(resolve_col(Some(&val("-1")), true, &rows).err().unwrap(), "bad column index");
}

#[test]
fn groups_are_counted_and_summed() {
    let rows = sales();
    let groups = group_tallies(&rows, &nums(&rows), true, 0, Some(2));
    assert_eq!(groups.len(), 3);
    assert_eq!(groups[0], ("ann".to_string(), (2, bits(&[3.0, 2.0]))));
    assert_eq!(groups[2], ("cid".to_string(), (1, vec![])));
    let counted = op_sheet_aggregate(&rows, true, 0, Some(2), "count", &groups, &vec![]);
    assert_eq!(seen(&counted), want(r#"[["who","count"],["ann",2],["bob",2],["cid",1]]"#));
    let opts = val(r#"{"agg":"median"}"#);
    assert_eq!(read_agg(&opts, "sum").err().unwrap(), "unknown agg: median");
    assert_eq!(read_agg(&val("{}"), "sum").unwrap(), "sum");
    assert_eq!(
        value_column(&val("{}"), "sum", true, &rows).err().unwrap(),
        "agg 'sum' requires a value column"
    );
    assert_eq!(least_of(&bits(&[3.0, -1.0, 2.0])), (-1f64).to_bits());
    assert_eq!(greatest_of(&bits(&[3.0, -1.0, 2.0])), 3f64.to_bits());
}

#[test]
fn pivot_tables_are_full() {
    let rows = sales();
    let p = pivot_tallies(&rows, &nums(&rows), true, 0, 1, Some(2));
    assert_eq!(p.rows, vec!["ann", "bob", "cid"]);
    assert_eq!(p.cols, vec!["ink", "pen"]);
    assert!(p.cells.iter().all(|r| r.len() == 2) && p.cells.len() == 3);
    let t = op_sheet_pivot("who", &p, "count", &vec![]);
    assert_eq!(
        seen(&t),
        want(r#"[["who","ink","pen"],["ann",1,1],["bob",1,1],["cid",0,1]]"#)
    );
}

#[test]
fn group_values_are_joined() {
    let rows = sales();
    let t = op_sheet_group_concat(&rows, true, 1, 0, "+", true);
    assert_eq!(js(&t[1][0]), want(r#""ink""#));
    assert_eq!(js(&t[1][1]), want(r#""bob+ann""#));
    assert_eq!(js(&t[2][1]), want(r#""ann+cid+bob""#));
}

#[test]
fn values_are_counted_most_frequent_first() {
    let rows = sales();
    let (filled, top) = op_sheet_freq(&rows, true, 1, false, Some(1));
    assert_eq!(filled, 5);
    assert_eq!(top, vec![("pen".to_string(), 3)]);
}

#[test]
fn keys_come_in_order_once() {
    let keys: Vec<String> = ["b", "a", "b", "", "A"].iter().map(|s| s.to_string()).collect();
    assert_eq!(ordered_keys(&keys), vec!["", "A", "a", "b"]);
    assert!(text_before("a", "b") && !text_before("b", "a") && text_before("", "a"));
}

#[test]
fn windows_and_differences() {
    let v = vec![Some(1f64.to_bits()), Some(3f64.to_bits()), None, Some(4f64.to_bits())];
    let w = op_sheet_movavg(&v, 2);
    assert_eq!(w[0], None);
    assert_eq!(w[1], Some(bits(&[1.0, 3.0])));
    assert_eq!(w[2], None);
    assert_eq!(w[3], None);
    let d = op_sheet_delta(&v);
    assert_eq!(d[0], None);
    assert!(d[1].is_some() && d[2].is_none() && d[3].is_none());
    assert_eq!(column_numbers(&v), bits(&[1.0, 3.0, 4.0]));
}

#[test]
fn clamping_moves_what_is_outside() {
    let v = vec![Some(1f64.to_bits()), Some(9f64.to_bits()), None];
    let (r, moved) = op_sheet_clamp(&v, Some(2f64.to_bits()), Some(5f64.to_bits()));
    assert_eq!(r, vec![Some(2f64.to_bits()), Some(5f64.to_bits()), None]);
    assert_eq!(moved, 2);
    let (again, none) = op_sheet_clamp(&r, Some(2f64.to_bits()), Some(5f64.to_bits()));
    assert_eq!((again, none), (r, 0));
    assert_eq!(clamp_bounds(None, None).err().unwrap(), "clamp needs at least one of min/max");
}

#[test]
fn cells_are_mapped() {
    let rows = sales();
    let (t, n) = op_sheet_map(&rows, true, 1, &val(r#"{"pen":"stift"}"#), None, None);
    assert_eq!(n, 3);
    assert_eq!(js(&t[1][1]), want(r#""stift""#));
    assert_eq!(js(&t[2][1]), want(r#""ink""#));
}

#[test]
fn a_column_is_renamed() {
    let t = op_sheet_rename_column(&sales(), 1, "item").unwrap();
    assert_eq!(js(&t[0][1]), want(r#""item""#));
    assert_eq!(op_sheet_rename_column(&vec![], 0, "x").err().unwrap(), "sheet has no header row");
}

#[test]
fn a_cell_of_several_values_explodes() {
    let rows = grid(r#"[["a","b"],["x, y",1],["z",2]]"#);
    let (t, n) = op_sheet_explode(&rows, true, 0, ",", true);
    assert_eq!(seen(&t), want(r#"[["a","b"],["x",1],["y",1],["z",2]]"#));
    assert_eq!(n, 3);
}

#[test]
fn partitions_go_by_key() {
    let parts = op_sheet_partition(&sales(), true, 0);
    assert_eq!(parts.len(), 3);
    assert_eq!(parts[1].0, "bob");
    assert_eq!(parts[1].1.len(), 3);
    let keys: Vec<String> = ["a/b", "a_b", ""].iter().map(|k| k.to_string()).collect();
    assert_eq!(sanitize_key("a/b c"), "a_b_c");
    assert_eq!(
        paths_of_partition("d", "p", &keys, "csv"),
        ["d/pa_b.csv", "d/pa_b (2).csv", "d/pblank.csv"]
    );
}

#[test]
fn rows_become_records_and_back() {
    let (fields, recs) = op_sheet_records(&grid(r#"[["a","b"],[1,"x"],[2]]"#));
    assert_eq!(fields, vec!["a", "b"]);
    assert_eq!(seen_list(&recs), want(r#"[{"a":1,"b":"x"},{"a":2,"b":null}]"#));
    let (names, rows) = op_records_write(&recs, None);
    assert_eq!(names, vec!["a", "b"]);
    assert_eq!(seen(&rows), want(r#"[["a","b"],[1,"x"],[2,null]]"#));
}

#[test]
fn lines_of_records_are_numbered() {
    let ls = ndjson_lines("{\"a\":1}\n\n  {\"a\":2} \n");
    assert_eq!(ls, vec![(1, "{\"a\":1}".to_string()), (3, "{\"a\":2}".to_string())]);
}

#[test]
fn cells_are_found() {
    let sheets = vec![("S".to_string(), sales())];
    let hits = op_sheet_find(&sheets, None, "pen", true, true);
    assert_eq!(hits.len(), 3);
    assert_eq!(js(&hits[0]), want(r#"{"sheet":"S","row":2,"col":2,"ref":"B2","value":"pen"}"#));
    assert_eq!(op_sheet_find(&sheets, None, "PEN", false, true).len(), 0);
    assert_eq!(op_sheet_find(&sheets, Some("T"), "pen", false, true).len(), 0);
}

#[test]
fn rules_are_checked() {
    let rule = read_rule(
        &val(r#"{"type":"int"}"#),
        Some((1f64.to_bits(), "1".to_string())),
        Some((5f64.to_bits(), "5".to_string())),
    );
    assert_eq!(check_cell(&val("3"), Some(3f64.to_bits()), &rule), None);
    assert_eq!(check_cell(&val("2.5"), Some(2.5f64.to_bits()), &rule).unwrap(), "int");
    assert_eq!(check_cell(&val("0"), Some(0f64.to_bits()), &rule).unwrap(), "min 1");
    assert_eq!(check_cell(&val("6"), Some(6f64.to_bits()), &rule).unwrap(), "max 5");
    let listed = read_rule(&val(r#"{"allowed":["ann","bob"]}"#), None, None);
    let rows = sales();
    let v = op_sheet_validate(&rows, &nums(&rows), true, &vec![(0, listed)]);
    assert_eq!(
        seen_list(&v),
        want(r#"[{"ref":"A5","row":5,"col":1,"column":"who","rule":"allowed","value":"cid"}]"#)
    );
    assert!(sheet_cell_blank(&val(r#""  ""#)) && !sheet_cell_blank(&val("0")));
}

#[test]
fn chunks_hold_all_rows() {
    let cs = op_sheet_chunk(&sales(), true, 2);
    assert_eq!(cs.len(), 3);
    let total: usize = cs.iter().map(|c| c.len() - 1).sum();
    assert_eq!(total, 5);
    assert_eq!(cs[2].len(), 2);
    assert_eq!(path_of_chunk("d", "p", 3, "csv"), "d/p-3.csv");
}

#[test]
fn heads_and_tails() {
    let (h, n) = op_sheet_head(&sales(), true, 2, false);
    assert_eq!((h.len(), n), (3, 2));
    let (t, m) = op_sheet_head(&sales(), true, 99, true);
    assert_eq!((seen(&t), m), (seen(&sales()), 5));
    let (l, _) = op_sheet_head(&sales(), true, 1, true);
    assert_eq!(js(&l[1][2]), want("10"));
}

#[test]
fn samples_have_their_size_and_repeat() {
    let (a, n) = op_sheet_sample(&sales(), true, 3, 42);
    let (b, _) = op_sheet_sample(&sales(), true, 3, 42);
    assert_eq!(n, 3);
    assert_eq!(a.len(), 4);
    assert_eq!(seen(&a), seen(&b));
    let (all, _) = op_sheet_sample(&sales(), true, 50, 42);
    assert_eq!(seen(&all), seen(&sales()));
    let mut s = 1u64;
    assert_eq!(xorshift64(&mut s), 1082269761);
    assert_eq!(s, 1082269761);
    assert_eq!(read_seed(&val(r#"{"seed":0}"#)), 0x9E37_79B9_7F4A_7C15);
    assert_eq!(read_seed(&val(r#"{"seed":7}"#)), 7);
}

#[test]
fn columns_are_described() {
    let rows = sales();
    let facts = op_sheet_stats(&rows, &nums(&rows), true);
    assert_eq!(facts.len(), 3);
    assert_eq!(facts[2].name, "n");
    assert_eq!(facts[2].blanks, 1);
    assert_eq!(facts[2].numbers, bits(&[3.0, 1.0, 2.0, 10.0]));
    let d = describe_column(
        &facts[2],
        Computed { sum: val("16"), min: val("1"), max: val("10"), mean: val("4") },
    );
    assert_eq!(js(&d)["mean"], want("4"));
    let cols = op_sheet_describe(&rows, &nums(&rows), true);
    assert_eq!(cols.len(), 1);
    assert_eq!(cols[0].0, "n");
    assert_eq!(sort_numbers_up(&bits(&[3.0, 1.0, 2.0])), bits(&[1.0, 2.0, 3.0]));
    let pairs = op_sheet_corr(&vec![Some(1), None, Some(3)], &vec![Some(4), Some(5), Some(6)]);
    assert_eq!(pairs, vec![(1, 4), (3, 6)]);
    assert_eq!(
        read_method(&val(r#"{"method":"x"}"#)).err().unwrap(),
        "unknown method: x (minmax|zscore)"
    );
}

#[test]
fn computed_columns_are_appended() {
    let rows = grid(r#"[["n", "x"], [1, "a"], ["-", "b"], [3, "c"]]"#);
    let bits = |x: f64| Some(x.to_bits());
    let vals = vec![bits(1.0), None, bits(3.0)];

    let sums = list("[1, 1, 4]");
    let (out, name) = op_sheet_cumsum(&val("{}"), &rows, true, 0, &sums);
    assert_eq!(name, "n_cumsum");
    assert_eq!(
        seen(&out),
        want(r#"[["n", "x", "n_cumsum"], [1, "a", 1], ["-", "b", 1], [3, "c", 4]]"#)
    );

    let shares = list("[25, 0, 75]");
    let total = 4f64.to_bits();
    let opts = val(r#"{"into": "part"}"#);
    let (out, name) = op_sheet_pct(&opts, &rows, true, 0, &vals, total, &shares);
    assert_eq!(name, "part");
    assert_eq!(
        seen(&out),
        want(r#"[["n", "x", "part"], [1, "a", 25], ["-", "b", ""], [3, "c", 75]]"#)
    );
    let (out, _) = op_sheet_pct(&opts, &rows, true, 0, &vals, 0f64.to_bits(), &shares);
    assert_eq!(
        seen(&out),
        want(r#"[["n", "x", "part"], [1, "a", ""], ["-", "b", ""], [3, "c", ""]]"#)
    );

    let scaled = list("[0, 9, 1]");
    let (out, name) = op_sheet_normalize(&val("{}"), &rows, true, 0, &vals, &scaled);
    assert_eq!(name, "n_norm");
    assert_eq!(
        seen(&out),
        want(r#"[["n", "x", "n_norm"], [1, "a", 0], ["-", "b", ""], [3, "c", 1]]"#)
    );
}
