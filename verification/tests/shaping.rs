use stryke_office::value::{to_json, Number, Value};

fn conv(j: &serde_json::Value) -> Value {
    match j {
        serde_json::Value::Null => Value::Null,
        serde_json::Value::Bool(b) => Value::Bool(*b),
        serde_json::Value::Number(n) => {
            if let Some(u) = n.as_u64() {
                Value::Number(Number::Unsigned(u))
            } else if let Some(i) = n.as_i64() {
                Value::Number(Number::Negative(i))
            } else {
                let bits = n.as_f64().unwrap().to_bits();
                Value::Number(Number::Float { bits, text: n.to_string() })
            }
        }
        serde_json::Value::String(s) => Value::Text(s.clone()),
        serde_json::Value::Array(a) => Value::Array(a.iter().map(conv).collect()),
        serde_json::Value::Object(o) => {
            Value::Object(o.iter().map(|(k, v)| (k.clone(), conv(v))).collect())
        }
    }
}

fn val(s: &str) -> Value {
    conv(&serde_json::from_str::<serde_json::Value>(s).unwrap())
}

fn js(v: &Value) -> serde_json::Value {
    serde_json::from_str(&to_json(v)).unwrap()
}

fn want(s: &str) -> serde_json::Value {
    serde_json::from_str(s).unwrap()
}

fn list(s: &str) -> Vec<Value> {
    match val(s) {
        Value::Array(a) => a,
        _ => panic!("no list"),
    }
}

fn grid(s: &str) -> Vec<Vec<Value>> {
    list(s)
        .into_iter()
        .map(|r| match r {
            Value::Array(a) => a,
            _ => panic!("no row"),
        })
        .collect()
}

fn seen(rows: &Vec<Vec<Value>>) -> serde_json::Value {
    serde_json::Value::Array(
        rows.iter().map(|r| serde_json::Value::Array(r.iter().map(js).collect())).collect(),
    )
}

fn seen_list(items: &Vec<Value>) -> serde_json::Value {
    serde_json::Value::Array(items.iter().map(js).collect())
}

fn reading(v: &Value) -> Option<u64> {
    match v {
        Value::Number(Number::Unsigned(u)) => Some((*u as f64).to_bits()),
        Value::Number(Number::Negative(i)) => Some((*i as f64).to_bits()),
        Value::Number(Number::Float { bits, .. }) => Some(*bits),
        Value::Text(s) => s.trim().parse::<f64>().ok().map(f64::to_bits),
        _ => None,
    }
}

fn nums(rows: &Vec<Vec<Value>>) -> Vec<Vec<Option<u64>>> {
    rows.iter().map(|r| r.iter().map(reading).collect()).collect()
}

fn bits(xs: &[f64]) -> Vec<u64> {
    xs.iter().map(|x| x.to_bits()).collect()
}

use stryke_office::formats::{csv_field, read_csv, rtf_escape, write_csv, xml_escape};
use stryke_office::reals::{is_whole, render_cell};
use stryke_office::render::{
    is_md_separator, op_md_to_sheet, op_sheet_to_html, op_sheet_to_md, op_sheet_to_text, split_md_row,
};
use stryke_office::reshape::{
    ascii_ci_replace, op_sheet_add_column, op_sheet_concat_columns, op_sheet_drop, op_sheet_join,
    op_sheet_replace, op_sheet_select, op_sheet_split_column, op_sheet_totals, op_sheet_transpose,
    op_sheet_unpivot, read_columns, read_melted_columns, numbers_to_total, Derived, JoinInput,
    Joining, Replacement, Splitting,
};
use stryke_office::sheets::{
    json_sheets, op_info, op_sheet_add, op_sheet_diff, op_sheet_info, op_sheet_merge,
    op_sheet_remove, op_sheet_rename, op_sheet_reorder, op_sheet_split, op_sheet_to_slides,
    op_sheet_union, op_sheet_write, write_ods, FileKind, OdsCell, SheetFormat,
};
use stryke_office::tables::{write_sheet_html, write_sheet_md};
use stryke_office::tidy::{
    check_calc, op_sheet_add_header, op_sheet_append, op_sheet_calc, op_sheet_dedupe,
    op_sheet_drop_empty, op_sheet_fill, read_columns_to_fill, read_compared,
};
use stryke_office::transform::{check_transform, op_sheet_transform, title_case};
use stryke_office::value::{cell_to_string, flag_of};

fn small() -> Vec<Vec<Value>> {
    grid(r#"[["a","b"],["x",1],["y",2]]"#)
}

#[test]
fn a_column_is_split() {
    let rows = grid(r#"[["name"],["Ann Lee"],["Bob"]]"#);
    let s = Splitting { sep: " ".into(), max: None, trimmed: true, keep: false };
    let (t, n) = op_sheet_split_column(&rows, true, 0, &s, Some(&vec!["first".into(), "last".into()]));
    assert_eq!(n, 2);
    assert_eq!(seen(&t)[0], want(r#"["first","last"]"#));
    assert_eq!(seen(&t)[1], want(r#"["Ann","Lee"]"#));
}

#[test]
fn columns_are_joined() {
    let rows = grid(r#"[["a","b","c"],["x","","z"]]"#);
    let j = Joining { sep: "-".into(), into: "abc".into(), skip_blanks: true, keep: true };
    let cols = read_columns(&val(r#"{"columns":["a","b",2]}"#), true, &rows).unwrap();
    let t = op_sheet_concat_columns(&rows, true, &cols, &j);
    assert_eq!(seen(&t), want(r#"[["a","b","c","abc"],["x","","z","x-z"]]"#));
    assert_eq!(
        read_columns(&val("{}"), true, &rows).err().unwrap(),
        "missing columns (expected array of names or indices)"
    );
    assert_eq!(
        read_columns(&val(r#"{"columns":[]}"#), true, &rows).err().unwrap(),
        "columns must list at least one column"
    );
}

#[test]
fn a_wide_sheet_becomes_long() {
    let rows = grid(r#"[["id","q1","q2"],["x",1,2]]"#);
    let (ids, vals) = read_melted_columns(&val(r#"{"id_vars":["id"]}"#), true, &rows).unwrap();
    let t = op_sheet_unpivot(&rows, true, &ids, &vals, "quarter", "n");
    assert_eq!(seen(&t), want(r#"[["id","quarter","n"],["x","q1",1],["x","q2",2]]"#));
}

#[test]
fn sheets_are_joined_on_a_key() {
    let j = JoinInput {
        lfields: vec!["k".into(), "a".into()],
        lrecs: list(r#"[{"k":1,"a":"x"},{"k":2,"a":"y"}]"#),
        rfields: vec!["k".into(), "b".into()],
        rrecs: list(r#"[{"k":1,"b":"p"},{"k":1,"b":"q"}]"#),
        left_on: "k".into(),
        right_on: "k".into(),
        keep_left: true,
    };
    let (t, matched) = op_sheet_join(&j);
    assert_eq!(seen(&t), want(r#"[["k","a","b"],[1,"x","p"],[1,"x","q"],[2,"y",null]]"#));
    assert_eq!(matched, 2);
}

#[test]
fn columns_are_chosen_and_dropped() {
    let rows = small();
    assert_eq!(seen(&op_sheet_select(&rows, &vec![1, 0])), want(r#"[["b","a"],[1,"x"],[2,"y"]]"#));
    let (t, n) = op_sheet_drop(&val(r#"{"columns":["a"]}"#), true, &rows).unwrap();
    assert_eq!((seen(&t), n), (want(r#"[["b"],[1],[2]]"#), 1));
    assert_eq!(
        op_sheet_drop(&val("{}"), true, &rows).err().unwrap(),
        "missing columns to drop"
    );
}

#[test]
fn columns_are_added_and_totalled() {
    let rows = small();
    let t = op_sheet_add_column(&rows, true, "k", &Derived::Constant(val("7")));
    assert_eq!(seen(&t), want(r#"[["a","b","k"],["x",1,7],["y",2,7]]"#));
    let terms = numbers_to_total(&rows, &nums(&rows), true);
    assert_eq!(terms, vec![vec![], bits(&[1.0, 2.0])]);
    let (t, n) = op_sheet_totals(small(), "Total", &terms, &list("[0,3]"));
    assert_eq!(seen(&t)[3], want(r#"["Total",3]"#));
    assert_eq!(n, 1);
}

#[test]
fn transposing_twice_is_nothing() {
    let rows = small();
    let t = op_sheet_transpose(&rows);
    assert_eq!(seen(&t), want(r#"[["a","x","y"],["b",1,2]]"#));
    assert_eq!(seen(&op_sheet_transpose(&t)), seen(&rows));
}

#[test]
fn texts_are_replaced() {
    assert_eq!(ascii_ci_replace("Ab aB", "AB", "-"), ("- -".to_string(), 2));
    let r = Replacement { find: "x".into(), rep: "z".into(), ignore_case: false, whole: true };
    let (t, n) = op_sheet_replace(&small(), true, None, &r);
    assert_eq!((seen(&t), n), (want(r#"[["a","b"],["z",1],["y",2]]"#), 1));
}

#[test]
fn csv_reads_back_what_it_wrote() {
    let rows = grid(r#"[["a,b","say \"hi\""],["two\nlines",""],["x"]]"#);
    let text = write_csv(&vec![("S".into(), rows)], ',');
    assert_eq!(text, "\"a,b\",\"say \"\"hi\"\"\"\n\"two\nlines\",\nx\n");
    let back = read_csv(&text, ',');
    assert_eq!(back, vec![vec!["a,b", "say \"hi\""], vec!["two\nlines", ""], vec!["x"]]);
    assert_eq!(csv_field("a;b", ';'), "\"a;b\"");
    assert_eq!(read_csv("a\r\nb", ','), vec![vec!["a"], vec!["b"]]);
}

#[test]
fn markup_is_escaped() {
    assert_eq!(xml_escape("<a & \"b\">"), "&lt;a &amp; &quot;b&quot;&gt;");
    assert_eq!(rtf_escape("{\\}"), "\\{\\\\\\}");
}

#[test]
fn sheets_become_markdown_and_back() {
    let (md, n) = op_sheet_to_md(&grid(r#"[["a","b|c"],[1,"x"]]"#), true).unwrap();
    assert_eq!(md, "| a | b\\|c |\n| --- | --- |\n| 1 | x |\n");
    assert_eq!(n, 2);
    assert_eq!(op_md_to_sheet(&md).unwrap(), vec![vec!["a", "b|c"], vec!["1", "x"]]);
    assert_eq!(op_sheet_to_md(&vec![], true).err().unwrap(), "sheet has no columns");
    assert_eq!(
        op_md_to_sheet("none").err().unwrap(),
        "no Markdown table found (no leading-pipe rows)"
    );
    assert_eq!(split_md_row("| a | b |"), vec!["a", "b"]);
    assert_eq!(split_md_row("a | b\\|"), vec!["a", "b|"]);
    assert_eq!(split_md_row("| a\\|b | c\\ |"), vec!["a|b", "c\\"]);
    let cells = |t: &str| vec![t.to_string()];
    assert!(is_md_separator(&cells(":---:")) && is_md_separator(&cells(" - ")));
    assert!(!is_md_separator(&cells("-:-")) && !is_md_separator(&cells("::")));
    assert!(!is_md_separator(&Vec::new()));
}

#[test]
fn sheets_become_html_and_text() {
    let (html, n) = op_sheet_to_html(&small(), true, false, None);
    assert!(html.contains("<th>a</th>") && html.contains("<td>2</td>"));
    assert_eq!(n, 2);
    let (text, m) = op_sheet_to_text(&small(), true, false);
    assert!(text.starts_with("a"));
    assert_eq!(m, 2);
    let (boxed, _) = op_sheet_to_text(&small(), true, true);
    assert!(boxed.starts_with("+"));
}

#[test]
fn whole_sheets_are_written_as_html_and_markdown() {
    let sheets = vec![("S".to_string(), small())];
    assert!(write_sheet_html(&sheets).contains("<td>x</td>"));
    assert!(write_sheet_md(&sheets).contains("| x | 1 |"));
}

#[test]
fn whole_numbers_are_shown_without_a_point() {
    assert_eq!(render_cell(&val("3.0")), "3");
    assert_eq!(render_cell(&val("3.5")), "3.5");
    assert_eq!(render_cell(&val("-2")), "-2");
    assert!(is_whole(4f64.to_bits()) && !is_whole(4.5f64.to_bits()));
    assert_eq!(cell_to_string(&val("null")), "");
    assert_eq!(flag_of(&val(r#""yes""#)), flag_of(&val("true")));
}

#[test]
fn sheets_are_read_from_options() {
    let s = json_sheets(&val(r#"{"sheets":[{"rows":[[1]]},{"name":"B","rows":[]}]}"#)).unwrap();
    assert_eq!((s[0].0.as_str(), s[1].0.as_str()), ("Sheet1", "B"));
    assert_eq!(json_sheets(&val("{}")).err().unwrap(), "missing sheets (expected array)");
    assert_eq!(
        json_sheets(&val(r#"{"sheets":[{"name":"B"}]}"#)).err().unwrap(),
        "sheet B: missing rows"
    );
}

#[test]
fn sheets_are_written_by_extension() {
    assert!(matches!(op_sheet_write(&val("{}"), "a.xlsx"), Ok(SheetFormat::Xlsx)));
    assert!(matches!(op_sheet_write(&val("{}"), "a.tsv"), Ok(SheetFormat::Delimited('\t'))));
    assert!(matches!(
        op_sheet_write(&val(r#"{"format":"html"}"#), "a.xlsx"),
        Ok(SheetFormat::Html)
    ));
    assert_eq!(
        op_sheet_write(&val("{}"), "a.doc").err().unwrap(),
        "unsupported spreadsheet write format: doc"
    );
    assert!(matches!(write_ods(&val("null")), OdsCell::Empty));
    assert!(matches!(write_ods(&val("true")), OdsCell::Flag(true)));
    assert!(matches!(write_ods(&val("\"t\"")), OdsCell::Text(_)));
}

fn two() -> Vec<(String, Vec<Vec<Value>>)> {
    vec![("A".to_string(), small()), ("B".to_string(), grid("[[1]]"))]
}

#[test]
fn sheets_are_moved_about() {
    let r = op_sheet_rename(two(), Some(&val("\"B\"")), "C").unwrap();
    assert_eq!(r[1].0, "C");
    let a = op_sheet_add(two(), Some(1), "N", vec![]);
    assert_eq!(a.len(), 3);
    let (rest, name) = op_sheet_remove(two(), Some(&val("\"A\""))).unwrap();
    assert_eq!((rest.len(), name.as_str()), (1, "A"));
    assert_eq!(
        op_sheet_remove(rest, Some(&val("0"))).err().unwrap(),
        "cannot remove the only sheet"
    );
    let o = op_sheet_reorder(&two(), &list(r#"["B","A"]"#)).unwrap();
    assert_eq!(o[0].0, "B");
    assert_eq!(
        op_sheet_reorder(&two(), &list(r#"["Z"]"#)).err().unwrap(),
        "order referenced no existing sheets"
    );
}

#[test]
fn merged_sheets_keep_apart() {
    let m = op_sheet_merge(&vec![two(), two()], false);
    let names: Vec<&str> = m.iter().map(|s| s.0.as_str()).collect();
    assert_eq!(names.len(), 4);
    let mut sorted = names.clone();
    sorted.sort();
    sorted.dedup();
    assert_eq!(sorted.len(), 4);
}

#[test]
fn unions_collect_all_fields() {
    let (fields, rows) = op_sheet_union(&vec![list(r#"[{"a":1}]"#), list(r#"[{"b":2}]"#)]);
    assert_eq!(fields, vec!["a", "b"]);
    assert_eq!(rows.len(), 3);
}

#[test]
fn sheets_are_described_and_compared() {
    let info = op_sheet_info(&two());
    assert_eq!(info.len(), 2);
    assert_eq!(js(&info[0])["name"], want("\"A\""));
    assert!(op_sheet_diff(&small(), &small()).is_empty());
    let d = op_sheet_diff(&small(), &grid(r#"[["a","b"],["x",9],["y",2]]"#));
    assert_eq!(d.len(), 1);
    assert_eq!(js(&d[0])["ref"], want("\"B2\""));
}

#[test]
fn files_are_known_by_extension() {
    assert!(matches!(op_info("pdf"), Ok(FileKind::Pdf)));
    assert!(matches!(op_info("xlsx"), Ok(FileKind::Spreadsheet)));
    assert!(matches!(op_info("docx"), Ok(FileKind::Document)));
    assert!(matches!(op_info("pptx"), Ok(FileKind::Presentation)));
    assert!(matches!(op_info("png"), Ok(FileKind::Image)));
    assert_eq!(op_info("zzz").err().unwrap(), "unsupported file type: zzz");
}

#[test]
fn records_become_slides() {
    let s = op_sheet_to_slides(
        &vec!["t".into(), "n".into()],
        &list(r#"[{"t":"One","n":1}]"#),
        Some("t"),
    );
    assert_eq!(s.len(), 1);
    assert_eq!(js(&s[0])["title"], want("\"One\""));
    let names: Vec<String> = ["A", "b/c", "b_c"].iter().map(|n| n.to_string()).collect();
    assert_eq!(
        op_sheet_split("d", "p", &names, "csv"),
        ["d/pA.csv", "d/pb_c.csv", "d/pb_c (2).csv"]
    );
}

#[test]
fn equal_rows_are_dropped() {
    let rows = grid(r#"[["a","b"],[1,2],[1,2],[1,3]]"#);
    let all = read_compared(&val("{}"), true, &rows).unwrap();
    let (t, kept, gone) = op_sheet_dedupe(&rows, true, &all, false);
    assert_eq!((t.len(), kept, gone), (3, 2, 1));
    let by_a = read_compared(&val(r#"{"by":["a"]}"#), true, &rows).unwrap();
    assert!(by_a.is_some());
    let (t, _, _) = op_sheet_dedupe(&rows, true, &by_a, true);
    assert_eq!(seen(&t), want(r#"[["a","b"],[1,3]]"#));
}

#[test]
fn rows_are_appended() {
    let (t, n) = op_sheet_append(&val(r#"{"rows":[["z",3]]}"#), &small()).unwrap();
    assert_eq!((t.len(), n), (4, 1));
    assert_eq!(
        op_sheet_append(&val("{}"), &small()).err().unwrap(),
        "need rows or records to append"
    );
}

#[test]
fn gaps_are_filled_down() {
    let rows = grid(r#"[["a"],["x"],[""],[null],["y"]]"#);
    let cols = read_columns_to_fill(&val("{}"), true, &rows).unwrap();
    let (t, n) = op_sheet_fill(&rows, true, &cols, &None);
    assert_eq!(seen(&t), want(r#"[["a"],["x"],["x"],["x"],["y"]]"#));
    assert_eq!(n, 2);
    let (t, m) = op_sheet_fill(&rows, true, &cols, &Some(val("0")));
    assert_eq!(seen(&t), want(r#"[["a"],["x"],[0],[0],["y"]]"#));
    assert_eq!(m, 2);
}

#[test]
fn empty_rows_and_columns_go() {
    let rows = grid(r#"[["a","","c"],[1,"",2],["",null," "]]"#);
    let (t, r, c) = op_sheet_drop_empty(&rows, true, true, true);
    assert_eq!((r, c), (1, 1));
    assert_eq!(seen(&t), want(r#"[["a","c"],[1,2]]"#));
    let t = op_sheet_add_header(&grid("[[1]]"), &list(r#"["h"]"#));
    assert_eq!(seen(&t), want(r#"[["h"],[1]]"#));
}

#[test]
fn columns_are_computed() {
    assert_eq!(check_calc("^").err().unwrap(), "unknown op: ^ (one of + - * / %)");
    let l = vec![Some(6f64.to_bits()), None];
    let r = vec![Some(0f64.to_bits()), Some(1f64.to_bits())];
    assert_eq!(op_sheet_calc(&l, &r, None, "/"), vec![None, None]);
    assert_eq!(op_sheet_calc(&l, &r, None, "+")[0], Some((6f64.to_bits(), 0f64.to_bits())));
}

#[test]
fn cells_are_transformed() {
    assert_eq!(title_case("hELLO  wörld"), "Hello Wörld");
    assert_eq!(title_case("ßeta"), "SSeta");
    assert_eq!(check_transform("rot13").err().unwrap(), "unknown op: rot13");
    let rows = grid(r#"[["a"],[" Ab "],["ÄÖ"]]"#);
    let (t, n) = op_sheet_transform(&rows, true, 0, "upper", None, &vec![]);
    assert_eq!(seen(&t), want(r#"[["a"],[" AB "],["ÄÖ"]]"#));
    assert_eq!(n, 2);
    let (t, _) = op_sheet_transform(&rows, true, 0, "lower", None, &vec![]);
    assert_eq!(js(&t[2][0]), want(r#""äö""#));
    let (t, _) = op_sheet_transform(&rows, true, 0, "trim", None, &vec![]);
    assert_eq!(js(&t[1][0]), want(r#""Ab""#));
}

#[test]
fn transforming_again_changes_nothing() {
    let rows = grid(r#"[["n"], ["  the QUICK fox "], ["aB|c"], [3]]"#);
    for op in ["upper", "lower", "trim", "title"] {
        let (once, n) = op_sheet_transform(&rows, true, 0, op, None, &vec![]);
        let (twice, _) = op_sheet_transform(&once, true, 0, op, None, &vec![]);
        assert_eq!(n, 3);
        assert_eq!(seen(&once), seen(&twice));
        assert_eq!(seen(&once)[0], want(r#"["n"]"#));
    }
}

#[test]
fn written_table_rows_read_back() {
    let rows = grid(r#"[["a|b", "c\\"], ["x\ny", "|"]]"#);
    let (md, _) = op_sheet_to_md(&rows, true).unwrap();
    assert_eq!(op_md_to_sheet(&md).unwrap(), [["a|b", "c\\"], ["x y", "|"]]);
}
