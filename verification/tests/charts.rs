use stryke_office::value::{to_json, Number, Value};

fn conv(j: &serde_json::Value) -> Value {
    match j {
        serde_json::Value::Null => Value::Null,
        serde_json::Value::Bool(b) => Value::Bool(*b),
        serde_json::Value::Number(n) => {
            if let Some(u) = n.as_u64() {
                Value::Number(Number::Unsigned(u))
            } else if let Some(i) = n.as_i64() {
                Value::Number(Number::Negative(i))
            } else {
                let bits = n.as_f64().unwrap().to_bits();
                Value::Number(Number::Float { bits, text: n.to_string() })
            }
        }
        serde_json::Value::String(s) => Value::Text(s.clone()),
        serde_json::Value::Array(a) => Value::Array(a.iter().map(conv).collect()),
        serde_json::Value::Object(o) => {
            Value::Object(o.iter().map(|(k, v)| (k.clone(), conv(v))).collect())
        }
    }
}

fn val(s: &str) -> Value {
    conv(&serde_json::from_str::<serde_json::Value>(s).unwrap())
}

fn js(v: &Value) -> serde_json::Value {
    serde_json::from_str(&to_json(v)).unwrap()
}

fn want(s: &str) -> serde_json::Value {
    serde_json::from_str(s).unwrap()
}

fn list(s: &str) -> Vec<Value> {
    match val(s) {
        Value::Array(a) => a,
        _ => panic!("no list"),
    }
}

fn grid(s: &str) -> Vec<Vec<Value>> {
    list(s)
        .into_iter()
        .map(|r| match r {
            Value::Array(a) => a,
            _ => panic!("no row"),
        })
        .collect()
}

fn seen(rows: &Vec<Vec<Value>>) -> serde_json::Value {
    serde_json::Value::Array(
        rows.iter().map(|r| serde_json::Value::Array(r.iter().map(js).collect())).collect(),
    )
}

fn seen_list(items: &Vec<Value>) -> serde_json::Value {
    serde_json::Value::Array(items.iter().map(js).collect())
}

use stryke_office::chart::{
    legend_entries, op_chart_render, palette, read_drawing, series_color, series_nums,
    series_ohlc, series_points, series_points3, stands_on_axes, Drawing,
};
use stryke_office::figures::{
    count_bins, count_cells, five_number, longest_series, rank_down, read_bin_count,
    calendar_places, count_calendar_columns, read_calendar_days, read_combined, read_number_rows, read_scale, read_tasks, tile_order,
    waffle_cells, Scale,
};
use stryke_office::flows::{
    lay_tiles, node_links, op_chart_grid, read_columns, read_links, read_node_names, root_above,
    side_nodes,
};
use stryke_office::vector::{
    chart_to_svg, op_chart_save, op_chart_svg, pdf_with_jpeg, ChartFile, Mark, Outline,
};

fn shown(ns: &Vec<Number>) -> Vec<String> {
    ns.iter().map(stryke_office::value::number_text).collect()
}

fn bits(xs: &[f64]) -> Vec<u64> {
    xs.iter().map(|x| x.to_bits()).collect()
}

#[test]
fn kinds_have_drawings() {
    assert!(read_drawing("doughnut") == Drawing::Pie { hole: true });
    assert!(read_drawing("candlestick") == Drawing::Prices { candles: true });
    assert!(read_drawing("column") == Drawing::Bars { stacked: false });
    assert!(read_drawing("mosaic") == Drawing::Marimekko);
    assert!(stands_on_axes(read_drawing("dot")) && !stands_on_axes(read_drawing("gauge")));
}

#[test]
fn charts_are_planned() {
    let opts = val(r#"{"type":"line","width":5,"series":[{"name":"S","data":[1,2]},{"data":[3]}],"categories":["a",2],"markers":true,"title":"T"}"#);
    let p = op_chart_render(&opts).ok().unwrap();
    assert!(p.drawing == Drawing::Line { filled: false });
    assert_eq!((p.width, p.height), (120, 600));
    assert_eq!(p.categories, vec!["a", "2"]);
    assert!(p.markers && p.errors && !p.smooth && !p.category_labels);
    assert_eq!(p.legend.len(), 1);
    assert_eq!(p.legend[0].0, "S");
    assert_eq!(
        op_chart_render(&val(r#"{"type":"pie"}"#)).err().unwrap(),
        "missing series (expected array)"
    );
    assert!(op_chart_render(&val(r#"{"type":"gauge"}"#)).is_ok());
}

#[test]
fn colors_go_round() {
    let p = palette(&vec![], 0);
    assert_eq!([p.r, p.g, p.b], [0x44, 0x72, 0xc4]);
    let q = palette(&vec![], 13);
    let r = palette(&vec![], 3);
    assert_eq!([q.r, q.g, q.b], [r.r, r.g, r.b]);
    let own = vec!["#010203".to_string(), "#040506".to_string()];
    assert_eq!(palette(&own, 3).r, 4);
    assert_eq!(series_color(&own, &val(r##"{"color":"#ffffff"}"##), 0).r, 255);
    let l = legend_entries(
        Drawing::Funnel,
        &own,
        &vec![],
        &vec!["x".to_string(), "y".to_string(), "z".to_string()],
    );
    assert_eq!(l[2].1.r, 1);
}

#[test]
fn numbers_of_series() {
    assert_eq!(shown(&series_nums(&val(r#"{"data":[1,"x",-2,2.5,null]}"#))), vec!["1", "-2", "2.5"]);
    let pts = series_points(&val(r#"{"data":[[1,2],[3],["x",4],[5,6,7]]}"#));
    assert_eq!(pts.len(), 2);
    let b = series_points3(&val(r#"{"data":[[1,2],[5,6,7]]}"#));
    assert!(b[0].size.is_none() && b[1].size.is_some());
    assert_eq!(series_ohlc(&val(r#"{"data":[[1,2,3,4],[1,2,3]]}"#)).len(), 1);
}

#[test]
fn scales_come_from_the_right_numbers() {
    let s = list(r#"[{"data":[1,5]},{"data":[2]}]"#);
    assert_eq!(longest_series(&s), 2);
    match read_scale(Drawing::Bars { stacked: false }, &s) {
        Scale::Listed { lows, from_zero, .. } => {
            assert_eq!(shown(&lows), vec!["1", "5", "2"]);
            assert!(from_zero);
        }
        _ => panic!("wrong scale"),
    }
    match read_scale(Drawing::StackedArea, &s) {
        Scale::Stacked { stacks, centered } => {
            assert_eq!(stacks.len(), 2);
            assert!(stacks[1][1].is_none() && !centered);
        }
        _ => panic!("wrong scale"),
    }
    let prices = list(r#"[{"data":[[10,20,5,15]]}]"#);
    match read_scale(Drawing::Prices { candles: true }, &prices) {
        Scale::Listed { lows, highs, .. } => {
            assert_eq!((shown(&lows), shown(&highs)), (vec!["5".to_string()], vec!["20".to_string()]));
        }
        _ => panic!("wrong scale"),
    }
    assert!(matches!(read_scale(Drawing::PercentStacked, &s), Scale::Percent));
    assert!(matches!(read_scale(Drawing::Waterfall, &s), Scale::Running(_)));
}

#[test]
fn rows_days_and_tasks() {
    let s = list(r#"[{"data":[1]},{"data":[2,3],"start":1,"end":2,"kind":"line"}]"#);
    assert_eq!(read_number_rows(&val(r#"{"matrix":[[1,2],"x"]}"#), "matrix", &s).len(), 2);
    assert_eq!(read_number_rows(&val("{}"), "matrix", &s)[1].len(), 2);
    assert_eq!(shown(&read_calendar_days(&val("{}"), &s)), vec!["1"]);
    assert_eq!(shown(&read_calendar_days(&val(r#"{"values":[7]}"#), &s)), vec!["7"]);
    let t = read_tasks(&s);
    assert_eq!((t.len(), t[0].place), (1, 1));
    assert_eq!(read_combined(&s, true), vec![1]);
    assert_eq!(read_combined(&s, false), vec![0]);
}

#[test]
fn ranks_and_quartiles() {
    assert_eq!(rank_down(&bits(&[1.0, 3.0, 3.0, 2.0])), vec![1, 2, 3, 0]);
    assert_eq!(tile_order(&bits(&[1.0, -3.0, 2.0, 0.0])), vec![2, 0]);
    assert_eq!(five_number(&vec![]), None);
    assert_eq!(
        five_number(&bits(&[9.0, 1.0, 5.0, 3.0, 7.0])).unwrap(),
        bits(&[1.0, 3.0, 5.0, 7.0, 9.0])
    );
    for n in 1..60usize {
        let xs: Vec<f64> = (0..n).map(|i| i as f64).collect();
        let at = |p: f64| xs[(p * (n - 1) as f64).round() as usize];
        assert_eq!(
            five_number(&bits(&xs)).unwrap(),
            bits(&[xs[0], at(0.25), at(0.5), at(0.75), xs[n - 1]])
        );
    }
}

#[test]
fn bins_and_cells_lose_nothing() {
    assert_eq!(read_bin_count(&val(r#"{"bins":0}"#)), 1);
    assert_eq!(read_bin_count(&val("{}")), 10);
    let c = count_bins(&vec![0, 1, 1, 9, 3], 4);
    assert_eq!(c, vec![1, 2, 0, 2]);
    let cells = waffle_cells(&vec![33, 33, 33], &bits(&[0.3, 0.5, 0.2]));
    assert_eq!(cells.len(), 100);
    assert_eq!(cells.iter().filter(|&&k| k == 1).count(), 34);
    let h = count_cells(&vec![(0, 0), (1, -1), (0, 0)]);
    assert_eq!(h, vec![((0, 0), 2), ((1, -1), 1)]);
}

#[test]
fn flows_have_their_nodes() {
    let opts = val(r#"{"links":[{"source":2,"target":0,"value":3},{"target":1},{"source":2,"target":1}],"nodes":[{"name":"n"},{}]}"#);
    let links = read_links(&opts);
    assert_eq!(links.len(), 3);
    assert_eq!(side_nodes(&links, true), vec![0, 2]);
    assert_eq!(side_nodes(&links, false), vec![0, 1]);
    assert_eq!(node_links(&links, 2, true), vec![0, 2]);
    assert_eq!(read_node_names(&opts), vec!["n", ""]);
}

#[test]
fn tiles_are_laid_out() {
    assert_eq!((root_above(0), root_above(1), root_above(5), root_above(9)), (0, 1, 3, 3));
    assert_eq!(read_columns(&val("{}"), 5), 3);
    assert_eq!(read_columns(&val(r#"{"cols":0}"#), 5), 1);
    let t = lay_tiles(&vec![(10, 4), (6, 8), (1, 1)], 2, 1);
    assert_eq!((t.width, t.height), (23, 19));
    assert_eq!(t.places, vec![(1, 1), (12, 1), (1, 10)]);
    let g = op_chart_grid(&val(r#"{"charts":[{"type":"bar"},{"width":9}]}"#)).ok().unwrap();
    assert_eq!(js(&g.charts[0]), want(r#"{"type":"bar","width":400,"height":300}"#));
    assert_eq!(js(&g.charts[1]), want(r#"{"width":9,"height":300}"#));
    assert_eq!((g.cols, g.gap), (2, 10));
    assert_eq!(op_chart_grid(&val(r#"{"charts":[]}"#)).err().unwrap(), "no charts to grid");
    assert_eq!(
        op_chart_grid(&val("{}")).err().unwrap(),
        "missing charts (expected array of specs)"
    );
}

#[test]
fn vector_drawings_are_marked_up() {
    let s = chart_to_svg(
        "200",
        "100",
        "A<B",
        "100",
        &vec![Mark::Bar {
            x: "1".into(),
            y: "2".into(),
            width: "3".into(),
            height: "4".into(),
            fill: "#fff".into(),
        }],
    );
    assert_eq!(
        s,
        "<svg xmlns=\"http://www.w3.org/2000/svg\" width=\"200\" height=\"100\" viewBox=\"0 0 200 100\" font-family=\"sans-serif\"><rect width=\"200\" height=\"100\" fill=\"#ffffff\"/><text x=\"100\" y=\"26\" text-anchor=\"middle\" font-size=\"20\" font-weight=\"bold\" fill=\"#1e1e1e\">A&lt;B</text><rect x=\"1\" y=\"2\" width=\"3\" height=\"4\" fill=\"#fff\"/></svg>"
    );
    let p = op_chart_svg(&val(r#"{"type":"stacked","series":[],"width":999}"#)).ok().unwrap();
    assert!(p.outline == Outline::Bars { stacked: true });
    assert_eq!(p.width, 999);
    assert!(op_chart_svg(&val(r#"{"type":"sankey"}"#)).is_ok());
    assert!(op_chart_svg(&val("{}")).is_err());
}

#[test]
fn charts_are_saved_by_extension() {
    assert!(matches!(op_chart_save(&val(r#"{"path":"a.SVG"}"#)), Ok((_, ChartFile::Svg))));
    assert!(matches!(op_chart_save(&val(r#"{"path":"a.pdf"}"#)), Ok((_, ChartFile::Pdf))));
    assert!(
        matches!(op_chart_save(&val(r#"{"path":"a.png"}"#)), Ok((_, ChartFile::Raster(e))) if e == "png")
    );
    assert_eq!(op_chart_save(&val("{}")).err().unwrap(), "missing path");
}

#[test]
fn the_table_of_a_page_tells_the_truth() {
    let pdf = pdf_with_jpeg(&vec![0xff, 0xd8, 1, 2], 40, 20, "298");
    assert!(pdf.starts_with(b"%PDF-1.5\n"));
    assert!(pdf.ends_with(b"%%EOF"));
    let text: String = pdf.iter().map(|&b| b as char).collect();
    let start: usize = text.split("startxref\n").nth(1).unwrap().lines().next().unwrap().parse().unwrap();
    assert!(text[..].as_bytes().len() >= start);
    let table = &pdf[start..];
    assert!(table.starts_with(b"xref\n0 6\n0000000000 65535 f \n"));
    let lines: Vec<String> = String::from_utf8_lossy(table).lines().map(String::from).collect();
    for i in 1..=5usize {
        let off: usize = lines[2 + i][..10].parse().unwrap();
        assert!(pdf[off..].starts_with(format!("{i} 0 obj\n").as_bytes()));
    }
    assert!(text.contains("/Width 40 /Height 20"));
    assert!(text.contains("/MediaBox [0 0 595 298]"));
    assert!(text.contains("<< /Length 30 >>\nstream\nq 595 0 0 298 0 0 cm /Im0 Do Q\nendstream"));
}

#[test]
fn colors_of_one_chart_do_not_leak_into_another() {
    let named = val(r##"{"type": "bar", "series": [], "palette": ["#112233"]}"##);
    assert_eq!(op_chart_svg(&named).unwrap().colors, ["#112233"]);
    let plain = op_chart_svg(&val(r#"{"type": "bar", "series": [{"data": [1]}]}"#)).unwrap();
    let p = palette(&plain.colors, 0);
    assert_eq!((p.r, p.g, p.b), (0x44, 0x72, 0xc4));
}

#[test]
fn days_of_a_calendar_have_their_places() {
    assert_eq!(count_calendar_columns(None, 15), 3);
    assert_eq!(count_calendar_columns(None, 0), 1);
    assert_eq!(count_calendar_columns(Some(0), 15), 1);
    assert_eq!(count_calendar_columns(Some(9), 15), 9);
    let (side, places) = calendar_places(100, 140, 4, 9);
    assert_eq!(side, 20);
    assert_eq!(places[..2], [(0, 0), (0, 20)]);
    assert_eq!(places[6..], [(0, 120), (20, 0), (20, 20)]);
    assert_eq!(calendar_places(100, 140, 50, 1).0, 3);
    assert_eq!(calendar_places(-100, 140, u64::MAX, 1).0, 20);
}
