//! The plan of an xlsx workbook: its sheets with their commands, its document
//! properties and its defined names.

use crate::deep::{append_deep, push_deep};
use crate::text::{concat2, copy_text, decimal, decimal_text, same};
use crate::value::{
    as_array, as_text, as_u64, cell_text, cell_to_string, field, sheet_cell_disp, shown, Json,
    Value,
};
use crate::xlsx::{
    area_of, as_num, cell_write, color_number, copy_at, format_of, is_set, item_u64, listed, num_at,
    one, opt_cmd, opt_num, opt_nums, pair_at, pair_of, pair_u64, push_listed, push_one, quad,
    set_at, u64_item, write_xlsx_cell, xlsx_color, xlsx_format, Area, ChartKind, CmdView, Rule,
    Series, SeriesView, SheetCmd, SparkKind,
};
use vstd::prelude::*;

verus! {

// ── cells and merged ranges ─────────────────────────────────────────────────

/// A merged range: first row and column, last row and column.
pub type Merge = (u32, u32, u32, u32);

pub open spec fn merge_of(j: Json) -> Option<Merge> {
    match as_array(Some(j)) {
        Some(a) => match (u64_item(a, 0), u64_item(a, 1), u64_item(a, 2), u64_item(a, 3)) {
            (Some(r1), Some(c1), Some(r2), Some(c2)) => Some(
                (r1 as u32, c1 as u32, r2 as u32, c2 as u32),
            ),
            _ => None,
        },
        None => None,
    }
}

/// The merged ranges among the first `n` items.
pub open spec fn merges_among(a: Seq<Json>, n: nat) -> Seq<Merge>
    decreases n,
{
    if n == 0 || n > a.len() {
        Seq::empty()
    } else {
        let before = merges_among(a, (n - 1) as nat);
        match merge_of(a[n - 1]) {
            Some(m) => before.push(m),
            None => before,
        }
    }
}

/// The merged ranges of a sheet.
pub open spec fn merges_of(s: Json) -> Seq<Merge> {
    match as_array(field(s, "merges"@)) {
        Some(a) => merges_among(a, a.len()),
        None => Seq::empty(),
    }
}

pub open spec fn covers(m: Merge, r: u32, c: u32) -> bool {
    m.0 <= r <= m.2 && m.1 <= c <= m.3
}

/// Whether a cell lies in a merged range.
pub open spec fn in_merge(merges: Seq<Merge>, r: u32, c: u32) -> bool {
    exists|i: int| 0 <= i < merges.len() && #[trigger] covers(merges[i], r, c)
}

fn read_merges(s: &Value) -> (r: Vec<Merge>)
    ensures
        r@ == merges_of(s.deep_view()),
{
    let mut out: Vec<Merge> = Vec::new();
    match s.array_at("merges") {
        Some(a) => {
            let mut i: usize = 0;
            while i < a.len()
                invariant
                    i <= a@.len(),
                    out@ == merges_among(a.deep_view(), i as nat),
                decreases a@.len() - i,
            {
                assert(a.deep_view()[i as int] == a@[i as int].deep_view());
                match a[i].as_array() {
                    Some(q) => match (
                        item_u64(q, 0),
                        item_u64(q, 1),
                        item_u64(q, 2),
                        item_u64(q, 3),
                    ) {
                        (Some(r1), Some(c1), Some(r2), Some(c2)) => {
                            out.push((r1 as u32, c1 as u32, r2 as u32, c2 as u32));
                        },
                        _ => {},
                    },
                    None => {},
                }
                i = i + 1;
            }
        },
        None => {},
    }
    out
}

fn is_merged(merges: &Vec<Merge>, r: u32, c: u32) -> (b: bool)
    ensures
        b == in_merge(merges@, r, c),
{
    let mut i: usize = 0;
    while i < merges.len()
        invariant
            i <= merges@.len(),
            forall|k: int| 0 <= k < i ==> !#[trigger] covers(merges@[k], r, c),
        decreases merges@.len() - i,
    {
        let m = merges[i];
        if r >= m.0 && r <= m.2 && c >= m.1 && c <= m.3 {
            assert(covers(merges@[i as int], r, c));
            return true;
        }
        i = i + 1;
    }
    false
}

/// The command for one cell: none where it is merged or holds nothing.
pub open spec fn cell_cmd(cell: Json, r: u32, c: u16, merges: Seq<Merge>) -> Option<CmdView> {
    if in_merge(merges, r, c as u32) {
        None
    } else {
        match cell_write(cell) {
            Some(w) => Some(CmdView::Cell(r, c, w)),
            None => None,
        }
    }
}

/// The commands for the first `n` cells of row `r`.
pub open spec fn row_cmds(cells: Seq<Json>, r: u32, merges: Seq<Merge>, n: nat) -> Seq<CmdView>
    decreases n,
{
    if n == 0 || n > cells.len() {
        Seq::empty()
    } else {
        row_cmds(cells, r, merges, (n - 1) as nat) + one(
            cell_cmd(cells[n - 1], r, ((n - 1) as usize) as u16, merges),
        )
    }
}

/// The commands for the first `n` rows; a row that is no array is passed over.
pub open spec fn rows_cmds(rows: Seq<Json>, merges: Seq<Merge>, n: nat) -> Seq<CmdView>
    decreases n,
{
    if n == 0 || n > rows.len() {
        Seq::empty()
    } else {
        rows_cmds(rows, merges, (n - 1) as nat) + match as_array(Some(rows[n - 1])) {
            Some(cells) => row_cmds(cells, ((n - 1) as usize) as u32, merges, cells.len()),
            None => Seq::empty(),
        }
    }
}

/// The display text of a cell by row and column; empty where there is none.
pub open spec fn text_of_cell(rows: Seq<Json>, r: int, c: int) -> Seq<char> {
    if 0 <= r < rows.len() {
        match as_array(Some(rows[r])) {
            Some(cells) => if 0 <= c < cells.len() {
                cell_text(shown(cells[c]))
            } else {
                Seq::empty()
            },
            None => Seq::empty(),
        }
    } else {
        Seq::empty()
    }
}

/// The command for a merged range, which shows its first cell.
pub open spec fn merge_cmd(rows: Seq<Json>, m: Merge) -> CmdView {
    CmdView::Merge(
        Area { r1: m.0, c1: m.1 as u16, r2: m.2, c2: m.3 as u16 },
        text_of_cell(rows, m.0 as int, m.1 as int),
    )
}

pub open spec fn merge_cmds(rows: Seq<Json>, merges: Seq<Merge>) -> Seq<CmdView> {
    Seq::new(merges.len(), |i: int| merge_cmd(rows, merges[i]))
}

fn push_row(out: &mut Vec<SheetCmd>, cells: &Vec<Value>, r: u32, merges: &Vec<Merge>)
    ensures
        final(out).deep_view() == old(out).deep_view() + row_cmds(
            cells.deep_view(),
            r,
            merges@,
            cells@.len(),
        ),
{
    let ghost before = out.deep_view();
    let mut c: usize = 0;
    assert(out.deep_view() =~= before + row_cmds(cells.deep_view(), r, merges@, 0));
    while c < cells.len()
        invariant
            c <= cells@.len(),
            out.deep_view() == before + row_cmds(cells.deep_view(), r, merges@, c as nat),
        decreases cells@.len() - c,
    {
        assert(cells.deep_view()[c as int] == cells@[c as int].deep_view());
        let col = c as u16;
        let cmd = if is_merged(merges, r, col as u32) {
            None
        } else {
            match write_xlsx_cell(&cells[c]) {
                Some(w) => Some(SheetCmd::Cell(r, col, w)),
                None => None,
            }
        };
        push_one(out, cmd);
        c = c + 1;
        assert(out.deep_view() =~= before + row_cmds(cells.deep_view(), r, merges@, c as nat));
    }
}

fn push_rows(out: &mut Vec<SheetCmd>, rows: &Vec<Value>, merges: &Vec<Merge>)
    ensures
        final(out).deep_view() == old(out).deep_view() + rows_cmds(
            rows.deep_view(),
            merges@,
            rows@.len(),
        ),
{
    let ghost before = out.deep_view();
    let mut r: usize = 0;
    assert(out.deep_view() =~= before + rows_cmds(rows.deep_view(), merges@, 0));
    while r < rows.len()
        invariant
            r <= rows@.len(),
            out.deep_view() == before + rows_cmds(rows.deep_view(), merges@, r as nat),
        decreases rows@.len() - r,
    {
        assert(rows.deep_view()[r as int] == rows@[r as int].deep_view());
        match rows[r].as_array() {
            Some(cells) => {
                push_row(out, cells, r as u32, merges);
            },
            None => {},
        }
        r = r + 1;
        assert(out.deep_view() =~= before + rows_cmds(rows.deep_view(), merges@, r as nat));
    }
}

fn push_merges(out: &mut Vec<SheetCmd>, rows: &Vec<Value>, merges: &Vec<Merge>)
    ensures
        final(out).deep_view() == old(out).deep_view() + merge_cmds(rows.deep_view(), merges@),
{
    let ghost before = out.deep_view();
    let ghost all = merge_cmds(rows.deep_view(), merges@);
    let mut i: usize = 0;
    assert(out.deep_view() =~= before + all.take(0));
    while i < merges.len()
        invariant
            i <= merges@.len(),
            all == merge_cmds(rows.deep_view(), merges@),
            out.deep_view() == before + all.take(i as int),
        decreases merges@.len() - i,
    {
        let m = merges[i];
        let r: usize = m.0 as usize;
        let c: usize = m.1 as usize;
        let text = if r < rows.len() {
            assert(rows.deep_view()[r as int] == rows@[r as int].deep_view());
            match rows[r].as_array() {
                Some(cells) => if c < cells.len() {
                    assert(cells.deep_view()[c as int] == cells@[c as int].deep_view());
                    sheet_cell_disp(&cells[c])
                } else {
                    String::new()
                },
                None => String::new(),
            }
        } else {
            String::new()
        };
        push_deep(
            out,
            SheetCmd::Merge(Area { r1: m.0, c1: m.1 as u16, r2: m.2, c2: m.3 as u16 }, text),
        );
        i = i + 1;
        assert(out.deep_view() =~= before + all.take(i as int));
    }
    assert(all.take(i as int) =~= all);
}

// ── columns, rows, freeze ───────────────────────────────────────────────────

pub open spec fn width_cmd(c: Json) -> Option<CmdView> {
    match (as_u64(field(c, "col"@)), as_num(field(c, "width"@))) {
        (Some(col), Some(w)) => Some(CmdView::ColumnWidth(col as u16, w)),
        _ => None,
    }
}

fn make_width(c: &Value) -> (r: Option<SheetCmd>)
    ensures
        opt_cmd(r) == width_cmd(c.deep_view()),
{
    match (c.u64_at("col"), num_at(c, "width")) {
        (Some(col), Some(w)) => Some(SheetCmd::ColumnWidth(col as u16, w)),
        _ => None,
    }
}

pub open spec fn height_cmd(c: Json) -> Option<CmdView> {
    match (as_u64(field(c, "row"@)), as_num(field(c, "height"@))) {
        (Some(row), Some(h)) => Some(CmdView::RowHeight(row as u32, h)),
        _ => None,
    }
}

fn make_height(c: &Value) -> (r: Option<SheetCmd>)
    ensures
        opt_cmd(r) == height_cmd(c.deep_view()),
{
    match (c.u64_at("row"), num_at(c, "height")) {
        (Some(row), Some(h)) => Some(SheetCmd::RowHeight(row as u32, h)),
        _ => None,
    }
}

pub open spec fn freeze_cmd(s: Json) -> Option<CmdView> {
    match pair_of(field(s, "freeze"@)) {
        Some(p) => Some(CmdView::Freeze(p.0 as u32, p.1 as u16)),
        None => None,
    }
}

fn make_freeze(s: &Value) -> (r: Option<SheetCmd>)
    ensures
        opt_cmd(r) == freeze_cmd(s.deep_view()),
{
    match pair_at(s, "freeze") {
        Some(p) => Some(SheetCmd::Freeze(p.0 as u32, p.1 as u16)),
        None => None,
    }
}

pub open spec fn autofilter_cmd(s: Json) -> Option<CmdView> {
    match area_of(field(s, "autofilter"@)) {
        Some(a) => Some(CmdView::Autofilter(a)),
        None => None,
    }
}

fn make_autofilter(s: &Value) -> (r: Option<SheetCmd>)
    ensures
        opt_cmd(r) == autofilter_cmd(s.deep_view()),
{
    match quad(s, "autofilter") {
        Some(a) => Some(SheetCmd::Autofilter(a)),
        None => None,
    }
}

pub open spec fn table_cmd(s: Json) -> Option<CmdView> {
    match area_of(field(s, "table"@)) {
        Some(a) => Some(CmdView::Table(a)),
        None => None,
    }
}

fn make_table_cmd(s: &Value) -> (r: Option<SheetCmd>)
    ensures
        opt_cmd(r) == table_cmd(s.deep_view()),
{
    match quad(s, "table") {
        Some(a) => Some(SheetCmd::Table(a)),
        None => None,
    }
}

// ── charts ──────────────────────────────────────────────────────────────────

pub open spec fn chart_kind(t: Option<Seq<char>>) -> ChartKind {
    match t {
        Some(k) => if k == "bar"@ {
            ChartKind::Bar
        } else if k == "line"@ {
            ChartKind::Line
        } else if k == "pie"@ {
            ChartKind::Pie
        } else if k == "scatter"@ {
            ChartKind::Scatter
        } else if k == "area"@ {
            ChartKind::Area
        } else if k == "doughnut"@ {
            ChartKind::Doughnut
        } else {
            ChartKind::Column
        },
        None => ChartKind::Column,
    }
}

fn read_chart_kind(t: Option<&str>) -> (r: ChartKind)
    ensures
        r == chart_kind(
            match t {
                Some(k) => Some(k@),
                None => None,
            },
        ),
{
    match t {
        Some(k) => if same(k, "bar") {
            ChartKind::Bar
        } else if same(k, "line") {
            ChartKind::Line
        } else if same(k, "pie") {
            ChartKind::Pie
        } else if same(k, "scatter") {
            ChartKind::Scatter
        } else if same(k, "area") {
            ChartKind::Area
        } else if same(k, "doughnut") {
            ChartKind::Doughnut
        } else {
            ChartKind::Column
        },
        None => ChartKind::Column,
    }
}

pub open spec fn series_of(sv: Json) -> SeriesView {
    SeriesView {
        values: area_of(field(sv, "values"@)),
        categories: area_of(field(sv, "categories"@)),
        name: as_text(field(sv, "name"@)),
    }
}

pub open spec fn series_list(ch: Json) -> Seq<SeriesView> {
    match as_array(field(ch, "series"@)) {
        Some(a) => Seq::new(a.len(), |i: int| series_of(a[i])),
        None => Seq::empty(),
    }
}

/// Item `i` of the `at` array of a chart, or a default.
pub open spec fn chart_at(ch: Json, i: int, default: u64) -> u64 {
    match as_array(field(ch, "at"@)) {
        Some(a) => match u64_item(a, i) {
            Some(v) => v,
            None => default,
        },
        None => default,
    }
}

/// A chart, anchored at row 0 and column 5 where it names no place.
pub open spec fn chart_cmd(ch: Json) -> Option<CmdView> {
    Some(
        CmdView::Chart {
            kind: chart_kind(as_text(field(ch, "type"@))),
            title: as_text(field(ch, "title"@)),
            series: series_list(ch),
            row: chart_at(ch, 0, 0) as u32,
            col: chart_at(ch, 1, 5) as u16,
        },
    )
}

fn read_series(ch: &Value) -> (r: Vec<Series>)
    ensures
        r.deep_view() == series_list(ch.deep_view()),
{
    let mut out: Vec<Series> = Vec::new();
    match ch.array_at("series") {
        Some(a) => {
            let ghost all = series_list(ch.deep_view());
            let mut i: usize = 0;
            while i < a.len()
                invariant
                    i <= a@.len(),
                    all == Seq::new(a.deep_view().len(), |i: int| series_of(a.deep_view()[i])),
                    out.deep_view() == all.take(i as int),
                decreases a@.len() - i,
            {
                assert(a.deep_view()[i as int] == a@[i as int].deep_view());
                let sv = &a[i];
                push_deep(
                    &mut out,
                    Series {
                        values: quad(sv, "values"),
                        categories: quad(sv, "categories"),
                        name: copy_at(sv, "name"),
                    },
                );
                i = i + 1;
                assert(out.deep_view() =~= all.take(i as int));
            }
            assert(all.take(i as int) =~= all);
        },
        None => {
            assert(out.deep_view() =~= series_list(ch.deep_view()));
        },
    }
    out
}

fn read_chart_at(ch: &Value, i: usize, default: u64) -> (r: u64)
    ensures
        r == chart_at(ch.deep_view(), i as int, default),
{
    match ch.array_at("at") {
        Some(a) => match item_u64(a, i) {
            Some(v) => v,
            None => default,
        },
        None => default,
    }
}

fn make_chart(ch: &Value) -> (r: Option<SheetCmd>)
    ensures
        opt_cmd(r) == chart_cmd(ch.deep_view()),
{
    Some(
        SheetCmd::Chart {
            kind: read_chart_kind(ch.text_at("type")),
            title: copy_at(ch, "title"),
            series: read_series(ch),
            row: read_chart_at(ch, 0, 0) as u32,
            col: read_chart_at(ch, 1, 5) as u16,
        },
    )
}

// ── conditional formats and validations ─────────────────────────────────────

pub open spec fn rule_of(t: Option<Seq<char>>) -> Rule {
    match t {
        Some(k) => if k == "less_than"@ {
            Rule::LessThan
        } else if k == "greater_equal"@ {
            Rule::GreaterEqual
        } else if k == "less_equal"@ {
            Rule::LessEqual
        } else if k == "equal"@ {
            Rule::Equal
        } else if k == "not_equal"@ {
            Rule::NotEqual
        } else if k == "between"@ {
            Rule::Between
        } else if k == "not_between"@ {
            Rule::NotBetween
        } else {
            Rule::GreaterThan
        },
        None => Rule::GreaterThan,
    }
}

fn read_rule(t: Option<&str>) -> (r: Rule)
    ensures
        r == rule_of(
            match t {
                Some(k) => Some(k@),
                None => None,
            },
        ),
{
    match t {
        Some(k) => if same(k, "less_than") {
            Rule::LessThan
        } else if same(k, "greater_equal") {
            Rule::GreaterEqual
        } else if same(k, "less_equal") {
            Rule::LessEqual
        } else if same(k, "equal") {
            Rule::Equal
        } else if same(k, "not_equal") {
            Rule::NotEqual
        } else if same(k, "between") {
            Rule::Between
        } else if same(k, "not_between") {
            Rule::NotBetween
        } else {
            Rule::GreaterThan
        },
        None => Rule::GreaterThan,
    }
}

/// A conditional format; one without a range is passed over. A number that is
/// missing counts as zero.
pub open spec fn conditional_cmd(c: Json) -> Option<CmdView> {
    match area_of(field(c, "range"@)) {
        Some(area) => Some(
            CmdView::Conditional {
                area,
                rule: rule_of(as_text(field(c, "rule"@))),
                value: as_num(field(c, "value"@)),
                value2: as_num(field(c, "value2"@)),
                format: match field(c, "format"@) {
                    Some(f) => if f is Object {
                        format_of(f)
                    } else {
                        None
                    },
                    None => None,
                },
            },
        ),
        None => None,
    }
}

fn make_conditional(c: &Value) -> (r: Option<SheetCmd>)
    ensures
        opt_cmd(r) == conditional_cmd(c.deep_view()),
{
    match quad(c, "range") {
        Some(area) => {
            let format = match c.get("format") {
                Some(f) => if f.is_object() {
                    xlsx_format(f)
                } else {
                    None
                },
                None => None,
            };
            Some(
                SheetCmd::Conditional {
                    area,
                    rule: read_rule(c.text_at("rule")),
                    value: num_at(c, "value"),
                    value2: num_at(c, "value2"),
                    format,
                },
            )
        },
        None => None,
    }
}

pub open spec fn item_texts(a: Seq<Json>) -> Seq<Seq<char>> {
    Seq::new(a.len(), |i: int| cell_text(a[i]))
}

/// A list validation; one without a range or a list is passed over.
pub open spec fn validation_cmd(v: Json) -> Option<CmdView> {
    match (area_of(field(v, "range"@)), as_array(field(v, "list"@))) {
        (Some(area), Some(list)) => Some(CmdView::Validation(area, item_texts(list))),
        _ => None,
    }
}

/// The display texts of the items of an array.
pub fn texts_of_items(a: &Vec<Value>) -> (r: Vec<String>)
    ensures
        r.deep_view() == item_texts(a.deep_view()),
{
    let mut out: Vec<String> = Vec::new();
    let mut i: usize = 0;
    while i < a.len()
        invariant
            i <= a@.len(),
            out.deep_view() == item_texts(a.deep_view()).take(i as int),
        decreases a@.len() - i,
    {
        assert(a.deep_view()[i as int] == a@[i as int].deep_view());
        push_deep(&mut out, cell_to_string(&a[i]));
        i = i + 1;
        assert(out.deep_view() =~= item_texts(a.deep_view()).take(i as int));
    }
    assert(out.deep_view() =~= item_texts(a.deep_view()));
    out
}

fn make_validation(v: &Value) -> (r: Option<SheetCmd>)
    ensures
        opt_cmd(r) == validation_cmd(v.deep_view()),
{
    match (quad(v, "range"), v.array_at("list")) {
        (Some(area), Some(list)) => Some(SheetCmd::Validation(area, texts_of_items(list))),
        _ => None,
    }
}

// ── page setup and embedded content ─────────────────────────────────────────

pub open spec fn when(b: bool, c: CmdView) -> Option<CmdView> {
    if b {
        Some(c)
    } else {
        None
    }
}

pub open spec fn tab_color_cmd(s: Json) -> Option<CmdView> {
    match as_text(field(s, "tab_color"@)) {
        Some(c) => Some(CmdView::TabColor(color_number(c))),
        None => None,
    }
}

pub open spec fn zoom_cmd(s: Json) -> Option<CmdView> {
    match as_u64(field(s, "zoom"@)) {
        Some(z) => Some(CmdView::Zoom(z as u16)),
        None => None,
    }
}

pub open spec fn paper_cmd(s: Json) -> Option<CmdView> {
    match as_u64(field(s, "paper"@)) {
        Some(p) => Some(CmdView::Paper(p as u8)),
        None => None,
    }
}

pub open spec fn header_cmd(s: Json) -> Option<CmdView> {
    match as_text(field(s, "header"@)) {
        Some(t) => Some(CmdView::Header(t)),
        None => None,
    }
}

pub open spec fn footer_cmd(s: Json) -> Option<CmdView> {
    match as_text(field(s, "footer"@)) {
        Some(t) => Some(CmdView::Footer(t)),
        None => None,
    }
}

pub open spec fn print_area_cmd(s: Json) -> Option<CmdView> {
    match area_of(field(s, "print_area"@)) {
        Some(a) => Some(CmdView::PrintArea(a)),
        None => None,
    }
}

pub open spec fn repeat_rows_cmd(s: Json) -> Option<CmdView> {
    match pair_of(field(s, "repeat_rows"@)) {
        Some(p) => Some(CmdView::RepeatRows(p.0 as u32, p.1 as u32)),
        None => None,
    }
}

/// The first six items of an array as numbers.
pub open spec fn six_numbers(m: Seq<Json>) -> Seq<Option<crate::value::Num>> {
    Seq::new(
        6,
        |i: int|
            if 0 <= i < m.len() {
                as_num(Some(m[i]))
            } else {
                None
            },
    )
}

pub open spec fn margins_cmd(s: Json) -> Option<CmdView> {
    match as_array(field(s, "margins"@)) {
        Some(m) => Some(CmdView::Margins(six_numbers(m))),
        None => None,
    }
}

pub open spec fn note_cmd(n: Json) -> Option<CmdView> {
    match (as_u64(field(n, "row"@)), as_u64(field(n, "col"@)), as_text(field(n, "text"@))) {
        (Some(row), Some(col), Some(text)) => Some(
            CmdView::Note(row as u32, col as u16, text, as_text(field(n, "author"@))),
        ),
        _ => None,
    }
}

pub open spec fn image_cmd(n: Json) -> Option<CmdView> {
    match (as_u64(field(n, "row"@)), as_u64(field(n, "col"@)), as_text(field(n, "path"@))) {
        (Some(row), Some(col), Some(path)) => Some(CmdView::Image(row as u32, col as u16, path)),
        _ => None,
    }
}

pub open spec fn spark_kind(t: Option<Seq<char>>) -> SparkKind {
    match t {
        Some(k) => if k == "column"@ {
            SparkKind::Column
        } else if k == "winloss"@ || k == "winlose"@ {
            SparkKind::WinLose
        } else {
            SparkKind::Line
        },
        None => SparkKind::Line,
    }
}

/// A sparkline; one without a place or a range is passed over.
pub open spec fn sparkline_cmd(sp: Json) -> Option<CmdView> {
    match (pair_of(field(sp, "at"@)), area_of(field(sp, "range"@))) {
        (Some(at), Some(area)) => Some(
            CmdView::Sparkline {
                row: at.0 as u32,
                col: at.1 as u16,
                area,
                style: spark_kind(as_text(field(sp, "type"@))),
                markers: is_set(sp, "markers"@),
                high: is_set(sp, "high"@),
                low: is_set(sp, "low"@),
            },
        ),
        _ => None,
    }
}

pub open spec fn group_rows_cmd(v: Json) -> Option<CmdView> {
    match pair_of(Some(v)) {
        Some(p) => Some(CmdView::GroupRows(p.0 as u32, p.1 as u32)),
        None => None,
    }
}

pub open spec fn group_columns_cmd(v: Json) -> Option<CmdView> {
    match pair_of(Some(v)) {
        Some(p) => Some(CmdView::GroupColumns(p.0 as u16, p.1 as u16)),
        None => None,
    }
}

pub open spec fn hide_row_cmd(v: Json) -> Option<CmdView> {
    match as_u64(Some(v)) {
        Some(r) => Some(CmdView::HideRow(r as u32)),
        None => None,
    }
}

pub open spec fn hide_column_cmd(v: Json) -> Option<CmdView> {
    match as_u64(Some(v)) {
        Some(c) => Some(CmdView::HideColumn(c as u16)),
        None => None,
    }
}

fn make_margins(s: &Value) -> (r: Option<SheetCmd>)
    ensures
        opt_cmd(r) == margins_cmd(s.deep_view()),
{
    match s.array_at("margins") {
        Some(m) => {
            let mut out: Vec<Option<crate::value::Number>> = Vec::new();
            let ghost all = six_numbers(m.deep_view());
            let mut i: usize = 0;
            while i < 6
                invariant
                    i <= 6,
                    all == six_numbers(m.deep_view()),
                    out@.len() == i,
                    opt_nums(out@) == all.take(i as int),
                decreases 6 - i,
            {
                let n = if i < m.len() {
                    assert(m.deep_view()[i as int] == m@[i as int].deep_view());
                    match &m[i] {
                        Value::Number(n) => Some(n.dup()),
                        _ => None,
                    }
                } else {
                    None
                };
                let ghost before = opt_nums(out@);
                out.push(n);
                i = i + 1;
                assert(opt_nums(out@) =~= before.push(opt_num(n)));
                assert(opt_nums(out@) =~= all.take(i as int));
            }
            assert(all.take(6) =~= all);
            Some(SheetCmd::Margins(out))
        },
        None => None,
    }
}

fn make_note(n: &Value) -> (r: Option<SheetCmd>)
    ensures
        opt_cmd(r) == note_cmd(n.deep_view()),
{
    match (n.u64_at("row"), n.u64_at("col"), copy_at(n, "text")) {
        (Some(row), Some(col), Some(text)) => Some(
            SheetCmd::Note(row as u32, col as u16, text, copy_at(n, "author")),
        ),
        _ => None,
    }
}

fn make_image(n: &Value) -> (r: Option<SheetCmd>)
    ensures
        opt_cmd(r) == image_cmd(n.deep_view()),
{
    match (n.u64_at("row"), n.u64_at("col"), copy_at(n, "path")) {
        (Some(row), Some(col), Some(path)) => Some(
            SheetCmd::Image(row as u32, col as u16, path),
        ),
        _ => None,
    }
}

fn make_sparkline(sp: &Value) -> (r: Option<SheetCmd>)
    ensures
        opt_cmd(r) == sparkline_cmd(sp.deep_view()),
{
    match (pair_at(sp, "at"), quad(sp, "range")) {
        (Some(at), Some(area)) => {
            let style = match sp.text_at("type") {
                Some(k) => if same(k, "column") {
                    SparkKind::Column
                } else if same(k, "winloss") || same(k, "winlose") {
                    SparkKind::WinLose
                } else {
                    SparkKind::Line
                },
                None => SparkKind::Line,
            };
            Some(
                SheetCmd::Sparkline {
                    row: at.0 as u32,
                    col: at.1 as u16,
                    area,
                    style,
                    markers: set_at(sp, "markers"),
                    high: set_at(sp, "high"),
                    low: set_at(sp, "low"),
                },
            )
        },
        _ => None,
    }
}

fn make_group_rows(v: &Value) -> (r: Option<SheetCmd>)
    ensures
        opt_cmd(r) == group_rows_cmd(v.deep_view()),
{
    match pair_u64(v) {
        Some(p) => Some(SheetCmd::GroupRows(p.0 as u32, p.1 as u32)),
        None => None,
    }
}

fn make_group_columns(v: &Value) -> (r: Option<SheetCmd>)
    ensures
        opt_cmd(r) == group_columns_cmd(v.deep_view()),
{
    match pair_u64(v) {
        Some(p) => Some(SheetCmd::GroupColumns(p.0 as u16, p.1 as u16)),
        None => None,
    }
}

fn make_hide_row(v: &Value) -> (r: Option<SheetCmd>)
    ensures
        opt_cmd(r) == hide_row_cmd(v.deep_view()),
{
    match v.as_u64() {
        Some(x) => Some(SheetCmd::HideRow(x as u32)),
        None => None,
    }
}

fn make_hide_column(v: &Value) -> (r: Option<SheetCmd>)
    ensures
        opt_cmd(r) == hide_column_cmd(v.deep_view()),
{
    match v.as_u64() {
        Some(x) => Some(SheetCmd::HideColumn(x as u16)),
        None => None,
    }
}

/// Protection and page setup of a sheet.
pub open spec fn page_cmds(s: Json) -> Seq<CmdView> {
    one(when(is_set(s, "protect"@), CmdView::Protect)) + one(tab_color_cmd(s)) + one(zoom_cmd(s))
        + one(when(is_set(s, "landscape"@), CmdView::Landscape)) + one(paper_cmd(s)) + one(
        when(is_set(s, "print_gridlines"@), CmdView::PrintGridlines),
    ) + one(header_cmd(s)) + one(footer_cmd(s)) + one(print_area_cmd(s)) + one(repeat_rows_cmd(s))
        + one(margins_cmd(s))
}

/// Notes, images and sparklines of a sheet.
pub open spec fn content_cmds(s: Json) -> Seq<CmdView> {
    listed(s, "notes"@, |n: Json| note_cmd(n)) + listed(s, "images"@, |n: Json| image_cmd(n))
        + listed(s, "sparklines"@, |n: Json| sparkline_cmd(n))
}

/// Outline groups, hidden rows and columns, and column fitting of a sheet.
pub open spec fn outline_cmds(s: Json) -> Seq<CmdView> {
    listed(s, "group_rows"@, |n: Json| group_rows_cmd(n)) + listed(
        s,
        "group_columns"@,
        |n: Json| group_columns_cmd(n),
    ) + listed(s, "hide_rows"@, |n: Json| hide_row_cmd(n)) + listed(
        s,
        "hide_columns"@,
        |n: Json| hide_column_cmd(n),
    ) + one(when(is_set(s, "autofit"@), CmdView::Autofit))
}

/// Page setup, protection and embedded content of a sheet.
pub open spec fn setup_cmds(s: Json) -> Seq<CmdView> {
    page_cmds(s) + content_cmds(s) + outline_cmds(s)
}

fn if_set(s: &Value, key: &str, c: SheetCmd) -> (r: Option<SheetCmd>)
    ensures
        opt_cmd(r) == when(is_set(s.deep_view(), key@), c.deep_view()),
{
    if set_at(s, key) {
        Some(c)
    } else {
        None
    }
}

fn page_setup(s: &Value) -> (r: Vec<SheetCmd>)
    ensures
        r.deep_view() == page_cmds(s.deep_view()),
{
    let mut out: Vec<SheetCmd> = Vec::new();
    push_one(&mut out, if_set(s, "protect", SheetCmd::Protect));
    assert(out.deep_view() =~= one(when(is_set(s.deep_view(), "protect"@), CmdView::Protect)));
    push_one(
        &mut out,
        match s.text_at("tab_color") {
            Some(c) => Some(SheetCmd::TabColor(xlsx_color(c))),
            None => None,
        },
    );
    push_one(
        &mut out,
        match s.u64_at("zoom") {
            Some(z) => Some(SheetCmd::Zoom(z as u16)),
            None => None,
        },
    );
    push_one(&mut out, if_set(s, "landscape", SheetCmd::Landscape));
    push_one(
        &mut out,
        match s.u64_at("paper") {
            Some(p) => Some(SheetCmd::Paper(p as u8)),
            None => None,
        },
    );
    push_one(&mut out, if_set(s, "print_gridlines", SheetCmd::PrintGridlines));
    push_one(
        &mut out,
        match s.text_at("header") {
            Some(t) => Some(SheetCmd::Header(copy_text(t))),
            None => None,
        },
    );
    push_one(
        &mut out,
        match s.text_at("footer") {
            Some(t) => Some(SheetCmd::Footer(copy_text(t))),
            None => None,
        },
    );
    push_one(
        &mut out,
        match quad(s, "print_area") {
            Some(a) => Some(SheetCmd::PrintArea(a)),
            None => None,
        },
    );
    push_one(
        &mut out,
        match pair_at(s, "repeat_rows") {
            Some(p) => Some(SheetCmd::RepeatRows(p.0 as u32, p.1 as u32)),
            None => None,
        },
    );
    push_one(&mut out, make_margins(s));
    out
}

fn embedded(s: &Value) -> (r: Vec<SheetCmd>)
    ensures
        r.deep_view() == content_cmds(s.deep_view()),
{
    let mut out: Vec<SheetCmd> = Vec::new();
    push_listed(&mut out, s, "notes", make_note, Ghost(|n: Json| note_cmd(n)));
    assert(out.deep_view() =~= listed(s.deep_view(), "notes"@, |n: Json| note_cmd(n)));
    push_listed(&mut out, s, "images", make_image, Ghost(|n: Json| image_cmd(n)));
    push_listed(&mut out, s, "sparklines", make_sparkline, Ghost(|n: Json| sparkline_cmd(n)));
    out
}

fn outline(s: &Value) -> (r: Vec<SheetCmd>)
    ensures
        r.deep_view() == outline_cmds(s.deep_view()),
{
    let mut out: Vec<SheetCmd> = Vec::new();
    push_listed(&mut out, s, "group_rows", make_group_rows, Ghost(|n: Json| group_rows_cmd(n)));
    assert(out.deep_view() =~= listed(s.deep_view(), "group_rows"@, |n: Json| group_rows_cmd(n)));
    push_listed(
        &mut out,
        s,
        "group_columns",
        make_group_columns,
        Ghost(|n: Json| group_columns_cmd(n)),
    );
    push_listed(&mut out, s, "hide_rows", make_hide_row, Ghost(|n: Json| hide_row_cmd(n)));
    push_listed(&mut out, s, "hide_columns", make_hide_column, Ghost(|n: Json| hide_column_cmd(n)));
    push_one(&mut out, if_set(s, "autofit", SheetCmd::Autofit));
    out
}

pub fn write_xlsx_setup(s: &Value) -> (r: Vec<SheetCmd>)
    ensures
        r.deep_view() == setup_cmds(s.deep_view()),
{
    let mut out = page_setup(s);
    append_deep(&mut out, embedded(s));
    append_deep(&mut out, outline(s));
    out
}

// ── sheets and the workbook ─────────────────────────────────────────────────

/// The rows of a sheet description; none where it gives no array.
pub open spec fn raw_rows(s: Json) -> Seq<Json> {
    match as_array(field(s, "rows"@)) {
        Some(a) => a,
        None => Seq::empty(),
    }
}

/// Everything that is done to a sheet, in order: its cells outside merged ranges,
/// the merged ranges, then structure, charts, rules and setup.
pub open spec fn sheet_cmds(s: Json) -> Seq<CmdView> {
    rows_cmds(raw_rows(s), merges_of(s), raw_rows(s).len()) + merge_cmds(raw_rows(s), merges_of(s))
        + listed(s, "cols"@, |n: Json| width_cmd(n)) + listed(
        s,
        "row_heights"@,
        |n: Json| height_cmd(n),
    ) + one(freeze_cmd(s)) + one(autofilter_cmd(s)) + one(table_cmd(s)) + listed(
        s,
        "charts"@,
        |n: Json| chart_cmd(n),
    ) + listed(s, "conditional"@, |n: Json| conditional_cmd(n)) + listed(
        s,
        "validations"@,
        |n: Json| validation_cmd(n),
    ) + setup_cmds(s)
}

pub fn plan_sheet(s: &Value) -> (r: Vec<SheetCmd>)
    ensures
        r.deep_view() == sheet_cmds(s.deep_view()),
{
    let merges = read_merges(s);
    let mut out: Vec<SheetCmd> = Vec::new();
    let ghost start = out.deep_view();
    let none: Vec<Value> = Vec::new();
    let rows = match s.array_at("rows") {
        Some(a) => a,
        None => &none,
    };
    assert(rows.deep_view() =~= raw_rows(s.deep_view()));
    push_rows(&mut out, rows, &merges);
    assert(out.deep_view() =~= rows_cmds(
        raw_rows(s.deep_view()),
        merges_of(s.deep_view()),
        raw_rows(s.deep_view()).len(),
    ));
    push_merges(&mut out, rows, &merges);
    push_listed(&mut out, s, "cols", make_width, Ghost(|n: Json| width_cmd(n)));
    push_listed(&mut out, s, "row_heights", make_height, Ghost(|n: Json| height_cmd(n)));
    push_one(&mut out, make_freeze(s));
    push_one(&mut out, make_autofilter(s));
    push_one(&mut out, make_table_cmd(s));
    push_listed(&mut out, s, "charts", make_chart, Ghost(|n: Json| chart_cmd(n)));
    push_listed(&mut out, s, "conditional", make_conditional, Ghost(|n: Json| conditional_cmd(n)));
    push_listed(&mut out, s, "validations", make_validation, Ghost(|n: Json| validation_cmd(n)));
    append_deep(&mut out, write_xlsx_setup(s));
    out
}

/// The name of sheet `i`: its own, or `Sheet` and its number.
pub open spec fn sheet_name(s: Json, i: int) -> Seq<char> {
    match as_text(field(s, "name"@)) {
        Some(n) => n,
        None => "Sheet"@ + decimal((i + 1) as nat),
    }
}

pub fn name_of_sheet(s: &Value, i: usize) -> (r: String)
    requires
        i < u64::MAX,
        i < usize::MAX,
    ensures
        r@ == sheet_name(s.deep_view(), i as int),
{
    match s.text_at("name") {
        Some(n) => copy_text(n),
        None => concat2("Sheet", decimal_text((i + 1) as u64).as_str()),
    }
}

/// The texts under keys of an object, as pairs, where they are there.
pub open spec fn texts_under(p: Json, keys: Seq<Seq<char>>, n: nat) -> Seq<(Seq<char>, Seq<char>)>
    decreases n,
{
    if n == 0 || n > keys.len() {
        Seq::empty()
    } else {
        let before = texts_under(p, keys, (n - 1) as nat);
        match as_text(field(p, keys[n - 1])) {
            Some(v) => before.push((keys[n - 1], v)),
            None => before,
        }
    }
}

pub open spec fn property_keys() -> Seq<Seq<char>> {
    seq![
        "title"@,
        "author"@,
        "subject"@,
        "company"@,
        "manager"@,
        "keywords"@,
        "comments"@,
        "category"@,
        "status"@,
    ]
}

/// The document properties, where the options give an object of them.
pub open spec fn properties_of(opts: Json) -> Option<Seq<(Seq<char>, Seq<char>)>> {
    match field(opts, "properties"@) {
        Some(p) => if p is Object {
            Some(texts_under(p, property_keys(), property_keys().len()))
        } else {
            None
        },
        None => None,
    }
}

/// The defined names among the first `n` items: those with a name and a formula.
pub open spec fn names_among(a: Seq<Json>, n: nat) -> Seq<(Seq<char>, Seq<char>)>
    decreases n,
{
    if n == 0 || n > a.len() {
        Seq::empty()
    } else {
        let before = names_among(a, (n - 1) as nat);
        match (as_text(field(a[n - 1], "name"@)), as_text(field(a[n - 1], "formula"@))) {
            (Some(name), Some(formula)) => before.push((name, formula)),
            _ => before,
        }
    }
}

pub open spec fn names_of(opts: Json) -> Seq<(Seq<char>, Seq<char>)> {
    match as_array(field(opts, "defined_names"@)) {
        Some(a) => names_among(a, a.len()),
        None => Seq::empty(),
    }
}

/// What is written into a workbook.
pub struct WorkbookPlan {
    pub sheets: Vec<(String, Vec<SheetCmd>)>,
    pub properties: Option<Vec<(String, String)>>,
    pub names: Vec<(String, String)>,
}

pub open spec fn planned_sheets(sheets: Seq<Json>) -> Seq<(Seq<char>, Seq<CmdView>)> {
    Seq::new(sheets.len(), |i: int| (sheet_name(sheets[i], i), sheet_cmds(sheets[i])))
}

fn read_properties(opts: &Value) -> (r: Option<Vec<(String, String)>>)
    ensures
        match r {
            Some(p) => properties_of(opts.deep_view()) == Some(p.deep_view()),
            None => properties_of(opts.deep_view()) is None,
        },
{
    match opts.get("properties") {
        Some(p) => {
            if !p.is_object() {
                return None;
            }
            let keys: Vec<&str> = vec![
                "title",
                "author",
                "subject",
                "company",
                "manager",
                "keywords",
                "comments",
                "category",
                "status",
            ];
            let ghost kv = property_keys();
            let mut out: Vec<(String, String)> = Vec::new();
            let mut i: usize = 0;
            assert(out.deep_view() =~= Seq::<(Seq<char>, Seq<char>)>::empty());
            while i < keys.len()
                invariant
                    i <= keys@.len(),
                    keys@.len() == kv.len(),
                    forall|k: int| 0 <= k < kv.len() ==> #[trigger] keys@[k]@ == kv[k],
                    out.deep_view() == texts_under(p.deep_view(), kv, i as nat),
                decreases keys@.len() - i,
            {
                assert(keys@[i as int]@ == kv[i as int]);
                match p.text_at(keys[i]) {
                    Some(v) => {
                        push_deep(&mut out, (copy_text(keys[i]), copy_text(v)));
                        assert(out.deep_view().last() == (kv[i as int], v@));
                    },
                    None => {},
                }
                i = i + 1;
            }
            Some(out)
        },
        None => None,
    }
}

fn read_names(opts: &Value) -> (r: Vec<(String, String)>)
    ensures
        r.deep_view() == names_of(opts.deep_view()),
{
    let mut out: Vec<(String, String)> = Vec::new();
    assert(out.deep_view() =~= Seq::<(Seq<char>, Seq<char>)>::empty());
    match opts.array_at("defined_names") {
        Some(a) => {
            let mut i: usize = 0;
            while i < a.len()
                invariant
                    i <= a@.len(),
                    out.deep_view() == names_among(a.deep_view(), i as nat),
                decreases a@.len() - i,
            {
                assert(a.deep_view()[i as int] == a@[i as int].deep_view());
                match (a[i].text_at("name"), a[i].text_at("formula")) {
                    (Some(name), Some(formula)) => {
                        push_deep(&mut out, (copy_text(name), copy_text(formula)));
                        assert(out.deep_view().last() == (name@, formula@));
                    },
                    _ => {},
                }
                i = i + 1;
            }
        },
        None => {},
    }
    out
}

/// The plan of a workbook made of sheet descriptions.
pub fn write_xlsx(sheets: &Vec<Value>, opts: &Value) -> (r: WorkbookPlan)
    ensures
        r.sheets.deep_view() == planned_sheets(sheets.deep_view()),
        match r.properties {
            Some(p) => properties_of(opts.deep_view()) == Some(p.deep_view()),
            None => properties_of(opts.deep_view()) is None,
        },
        r.names.deep_view() == names_of(opts.deep_view()),
{
    let mut out: Vec<(String, Vec<SheetCmd>)> = Vec::new();
    let ghost all = planned_sheets(sheets.deep_view());
    let mut i: usize = 0;
    while i < sheets.len()
        invariant
            i <= sheets@.len(),
            all == planned_sheets(sheets.deep_view()),
            out.deep_view() == all.take(i as int),
        decreases sheets@.len() - i,
    {
        assert(sheets.deep_view()[i as int] == sheets@[i as int].deep_view());
        let name = name_of_sheet(&sheets[i], i);
        let cmds = plan_sheet(&sheets[i]);
        let ghost item = (name@, cmds.deep_view());
        push_deep(&mut out, (name, cmds));
        assert(out.deep_view().last() == item);
        i = i + 1;
        assert(out.deep_view() =~= all.take(i as int));
    }
    assert(all.take(i as int) =~= all);
    WorkbookPlan { sheets: out, properties: read_properties(opts), names: read_names(opts) }
}

/// Whether one of the merged ranges has a cell within its corners.
pub open spec fn lies_merged(merges: Seq<Merge>, r: int, c: int) -> bool {
    exists|i: int|
        0 <= i < merges.len() && (#[trigger] merges[i]).0 <= r && r <= merges[i].2 && merges[i].1
            <= c && c <= merges[i].3
}

/// The cells of a row that hold something and lie in no merged range are written, each at its
/// place and as what it holds, from the left; no others are.
pub proof fn cells_are_written_in_place(cells: Seq<Json>, r: u32, merges: Seq<Merge>, n: nat)
    requires
        n <= cells.len(),
        n <= 0x1_0000,
    ensures
        row_cmds(cells, r, merges, n) == Seq::new(n, |c: int| c).filter(
            |c: int| !lies_merged(merges, r as int, c) && cell_write(cells[c]) is Some,
        ).map_values(|c: int| CmdView::Cell(r, c as u16, cell_write(cells[c])->0)),
    decreases n,
{
    reveal(Seq::filter);
    let all = Seq::new(n, |c: int| c);
    let is = |c: int| !lies_merged(merges, r as int, c) && cell_write(cells[c]) is Some;
    let put = |c: int| CmdView::Cell(r, c as u16, cell_write(cells[c])->0);
    if n > 0 {
        cells_are_written_in_place(cells, r, merges, (n - 1) as nat);
        let c = n - 1;
        assert(all.drop_last() =~= Seq::new((n - 1) as nat, |c: int| c));
        assert(all.last() == c);
        if in_merge(merges, r, c as u32) {
            let i = choose|i: int|
                0 <= i < merges.len() && #[trigger] covers(merges[i], r, c as u32);
            assert(merges[i].0 <= r && r <= merges[i].2);
        }
        if lies_merged(merges, r as int, c) {
            let i = choose|i: int|
                0 <= i < merges.len() && (#[trigger] merges[i]).0 <= r && r <= merges[i].2
                    && merges[i].1 <= c && c <= merges[i].3;
            assert(covers(merges[i], r, c as u32));
        }
        let was = row_cmds(cells, r, merges, (n - 1) as nat);
        if is(c) {
            assert(all.filter(is).map_values(put) =~= all.drop_last().filter(is).map_values(
                put,
            ).push(put(c)));
            assert(was + seq![put(c)] =~= was.push(put(c)));
        } else {
            assert(was + Seq::<CmdView>::empty() =~= was);
        }
    } else {
        assert(all.filter(is).map_values(put) =~= Seq::<CmdView>::empty());
    }
}

/// A merged range is written over its corners and shows what its first cell holds.
pub proof fn merged_ranges_show_their_first_cell(
    rows: Seq<Json>,
    merges: Seq<Merge>,
    cells: Seq<Json>,
    i: int,
)
    requires
        0 <= i < merges.len(),
        merges[i].0 < rows.len(),
        rows[merges[i].0 as int] == Json::Array(cells),
        merges[i].1 < cells.len(),
        merges[i].1 <= u16::MAX,
        merges[i].3 <= u16::MAX,
    ensures
        merge_cmds(rows, merges).len() == merges.len(),
        merge_cmds(rows, merges)[i] is Merge,
        ({
            let m = merge_cmds(rows, merges)[i];
            &&& m->Merge_0.r1 == merges[i].0
            &&& m->Merge_0.c1 == merges[i].1
            &&& m->Merge_0.r2 == merges[i].2
            &&& m->Merge_0.c2 == merges[i].3
            &&& m->Merge_1 == cell_text(shown(cells[merges[i].1 as int]))
        }),
{
}

} // verus!
