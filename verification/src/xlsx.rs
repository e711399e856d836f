//! What is written into an xlsx workbook: the commands for each sheet, worked
//! out from its description, in the order in which they are carried out.

use crate::deep::push_deep;
use crate::text::{chars_of, copy_text, same};
use crate::value::{
    as_array, as_text, as_u64, cell_text, cell_to_string, field, flag_at, opt_flag, shown, Json,
    Num, Number, Value,
};
use crate::xml::opt_text;
use vstd::prelude::*;

verus! {

// ── small parts ─────────────────────────────────────────────────────────────

/// A rectangle of cells: first row and column, last row and column.
#[derive(Clone, Copy)]
pub struct Area {
    pub r1: u32,
    pub c1: u16,
    pub r2: u32,
    pub c2: u16,
}

/// The number of the value, where it is one.
pub open spec fn as_num(j: Option<Json>) -> Option<Num> {
    match j {
        Some(Json::Number(n)) => Some(n),
        _ => None,
    }
}

pub open spec fn opt_num(n: Option<Number>) -> Option<Num> {
    match n {
        Some(x) => Some(x.deep_view()),
        None => None,
    }
}

pub fn num_at(v: &Value, key: &str) -> (r: Option<Number>)
    ensures
        opt_num(r) == as_num(field(v.deep_view(), key@)),
{
    match v.get(key) {
        Some(Value::Number(n)) => Some(n.dup()),
        _ => None,
    }
}

/// Item `i` of an array as an unsigned number.
pub open spec fn u64_item(a: Seq<Json>, i: int) -> Option<u64> {
    if 0 <= i < a.len() {
        as_u64(Some(a[i]))
    } else {
        None
    }
}

pub fn item_u64(a: &Vec<Value>, i: usize) -> (r: Option<u64>)
    ensures
        r == u64_item(a.deep_view(), i as int),
{
    if i < a.len() {
        assert(a.deep_view()[i as int] == a@[i as int].deep_view());
        a[i].as_u64()
    } else {
        None
    }
}

/// Four unsigned numbers at the front of an array as a rectangle; each number is
/// cut down to the size of a row or column number.
pub open spec fn area_of(j: Option<Json>) -> Option<Area> {
    match as_array(j) {
        Some(a) => match (u64_item(a, 0), u64_item(a, 1), u64_item(a, 2), u64_item(a, 3)) {
            (Some(r1), Some(c1), Some(r2), Some(c2)) => Some(
                Area {
                    r1: r1 as u32,
                    c1: (c1 as u32) as u16,
                    r2: r2 as u32,
                    c2: (c2 as u32) as u16,
                },
            ),
            _ => None,
        },
        None => None,
    }
}

pub fn quad_arr(v: &Value) -> (r: Option<Area>)
    ensures
        r == area_of(Some(v.deep_view())),
{
    match v.as_array() {
        Some(a) => match (item_u64(a, 0), item_u64(a, 1), item_u64(a, 2), item_u64(a, 3)) {
            (Some(r1), Some(c1), Some(r2), Some(c2)) => Some(
                Area {
                    r1: r1 as u32,
                    c1: (c1 as u32) as u16,
                    r2: r2 as u32,
                    c2: (c2 as u32) as u16,
                },
            ),
            _ => None,
        },
        None => None,
    }
}

pub fn quad(v: &Value, key: &str) -> (r: Option<Area>)
    ensures
        r == area_of(field(v.deep_view(), key@)),
{
    match v.get(key) {
        Some(x) => quad_arr(x),
        None => None,
    }
}

/// Two unsigned numbers at the front of an array.
pub open spec fn pair_of(j: Option<Json>) -> Option<(u64, u64)> {
    match as_array(j) {
        Some(a) => match (u64_item(a, 0), u64_item(a, 1)) {
            (Some(x), Some(y)) => Some((x, y)),
            _ => None,
        },
        None => None,
    }
}

pub fn pair_u64(v: &Value) -> (r: Option<(u64, u64)>)
    ensures
        r == pair_of(Some(v.deep_view())),
{
    match v.as_array() {
        Some(a) => match (item_u64(a, 0), item_u64(a, 1)) {
            (Some(x), Some(y)) => Some((x, y)),
            _ => None,
        },
        None => None,
    }
}

pub fn pair_at(v: &Value, key: &str) -> (r: Option<(u64, u64)>)
    ensures
        r == pair_of(field(v.deep_view(), key@)),
{
    match v.get(key) {
        Some(x) => pair_u64(x),
        None => None,
    }
}

/// The text under a key as a copy.
pub fn copy_at(v: &Value, key: &str) -> (r: Option<String>)
    ensures
        opt_text(r) == as_text(field(v.deep_view(), key@)),
{
    match v.text_at(key) {
        Some(s) => Some(copy_text(s)),
        None => None,
    }
}

/// Whether the flag under a key is set.
pub open spec fn is_set(s: Json, key: Seq<char>) -> bool {
    flag_at(s, key) == Some(true)
}

pub fn set_at(v: &Value, key: &str) -> (r: bool)
    ensures
        r == is_set(v.deep_view(), key@),
{
    match opt_flag(v, key) {
        Some(b) => b,
        None => false,
    }
}

// ── colors ──────────────────────────────────────────────────────────────────

/// The value of a hexadecimal digit.
pub open spec fn hex_digit(c: char) -> Option<nat> {
    if '0' <= c <= '9' {
        Some((c as int - '0' as int) as nat)
    } else if 'a' <= c <= 'f' {
        Some((c as int - 'a' as int + 10) as nat)
    } else if 'A' <= c <= 'F' {
        Some((c as int - 'A' as int + 10) as nat)
    } else {
        None
    }
}

pub fn hex_value(c: char) -> (r: Option<u32>)
    ensures
        match r {
            Some(d) => d < 16 && hex_digit(c) == Some(d as nat),
            None => hex_digit(c) is None,
        },
{
    if '0' <= c && c <= '9' {
        Some(c as u32 - 48)
    } else if 'a' <= c && c <= 'f' {
        Some(c as u32 - 97 + 10)
    } else if 'A' <= c && c <= 'F' {
        Some(c as u32 - 65 + 10)
    } else {
        None
    }
}

/// The value of the first `n` characters as hexadecimal digits.
pub open spec fn hex_number(s: Seq<char>, n: nat) -> Option<nat>
    decreases n,
{
    if n == 0 || n > s.len() {
        Some(0)
    } else {
        match (hex_number(s, (n - 1) as nat), hex_digit(s[n - 1])) {
            (Some(v), Some(d)) => Some(v * 16 + d),
            _ => None,
        }
    }
}

/// `s` without the `#` signs at its start.
pub open spec fn unhashed(s: Seq<char>) -> Seq<char> {
    s.subrange(crate::markdown::run_end(s, '#', 0), s.len() as int)
}

/// A 32-bit number in hexadecimal with an optional `+` before it; nothing for any
/// other text.
pub open spec fn parse_hex(s: Seq<char>) -> Option<nat> {
    let d = if s.len() > 0 && s[0] == '+' {
        s.drop_first()
    } else {
        s
    };
    if d.len() == 0 {
        None
    } else {
        match hex_number(d, d.len()) {
            Some(v) => if v <= u32::MAX {
                Some(v)
            } else {
                None
            },
            None => None,
        }
    }
}

/// The color number of a `#rrggbb` text; 0 for anything that is no number.
pub open spec fn color_number(s: Seq<char>) -> u32 {
    match parse_hex(unhashed(s)) {
        Some(v) => v as u32,
        None => 0,
    }
}

proof fn lemma_hex_grows(s: Seq<char>, i: nat, n: nat)
    requires
        i <= n <= s.len(),
        hex_number(s, n) is Some,
    ensures
        hex_number(s, i) is Some,
        hex_number(s, i)->0 <= hex_number(s, n)->0,
    decreases n - i,
{
    if i < n {
        lemma_hex_grows(s, i, (n - 1) as nat);
    }
}

pub fn xlsx_color(s: &str) -> (r: u32)
    ensures
        r == color_number(s@),
{
    let cs = chars_of(s);
    let mut a: usize = 0;
    while a < cs.len() && cs[a] == '#'
        invariant
            a <= cs@.len(),
            crate::markdown::run_end(cs@, '#', 0) == crate::markdown::run_end(cs@, '#', a as int),
        decreases cs@.len() - a,
    {
        a = a + 1;
    }
    let ghost u = unhashed(cs@);
    assert(u =~= cs@.subrange(a as int, cs@.len() as int));
    let plus = a < cs.len() && cs[a] == '+';
    let ghost d = if u.len() > 0 && u[0] == '+' {
        u.drop_first()
    } else {
        u
    };
    if plus {
        a = a + 1;
    }
    assert(d =~= cs@.subrange(a as int, cs@.len() as int));
    if a >= cs.len() {
        return 0;
    }
    let mut v: u32 = 0;
    let mut i: usize = a;
    while i < cs.len()
        invariant
            a <= i <= cs@.len(),
            d == cs@.subrange(a as int, cs@.len() as int),
            d.len() > 0,
            hex_number(d, (i - a) as nat) == Some(v as nat),
            color_number(s@) == (match hex_number(d, d.len()) {
                Some(v) => if v <= u32::MAX {
                    v as u32
                } else {
                    0
                },
                None => 0,
            }),
        decreases cs@.len() - i,
    {
        assert(d[i - a] == cs@[i as int]);
        match hex_value(cs[i]) {
            Some(x) => {
                if v > 0x0fff_ffff {
                    proof {
                        if hex_number(d, d.len()) is Some {
                            lemma_hex_grows(d, (i + 1 - a) as nat, d.len());
                        }
                    }
                    return 0;
                }
                v = v * 16 + x;
            },
            None => {
                proof {
                    if hex_number(d, d.len()) is Some {
                        lemma_hex_grows(d, (i + 1 - a) as nat, d.len());
                    }
                }
                return 0;
            },
        }
        i = i + 1;
    }
    v
}

// ── cell formats ────────────────────────────────────────────────────────────

#[derive(Clone, Copy, PartialEq, Eq, Structural)]
pub enum Align {
    Left,
    Center,
    Right,
    General,
}

/// The formatting of a cell.
pub struct CellFormat {
    pub bold: bool,
    pub italic: bool,
    pub underline: bool,
    pub font: Option<String>,
    pub size: Option<Number>,
    pub color: Option<u32>,
    pub bg: Option<u32>,
    pub align: Option<Align>,
    pub num_format: Option<String>,
    pub border: bool,
}

#[verifier::ext_equal]
pub struct FormatView {
    pub bold: bool,
    pub italic: bool,
    pub underline: bool,
    pub font: Option<Seq<char>>,
    pub size: Option<Num>,
    pub color: Option<u32>,
    pub bg: Option<u32>,
    pub align: Option<Align>,
    pub num_format: Option<Seq<char>>,
    pub border: bool,
}

impl DeepView for CellFormat {
    type V = FormatView;

    open spec fn deep_view(&self) -> FormatView {
        FormatView {
            bold: self.bold,
            italic: self.italic,
            underline: self.underline,
            font: opt_text(self.font),
            size: opt_num(self.size),
            color: self.color,
            bg: self.bg,
            align: self.align,
            num_format: opt_text(self.num_format),
            border: self.border,
        }
    }
}

pub open spec fn opt_format(f: Option<CellFormat>) -> Option<FormatView> {
    match f {
        Some(x) => Some(x.deep_view()),
        None => None,
    }
}

pub open spec fn opt_color(t: Option<Seq<char>>) -> Option<u32> {
    match t {
        Some(c) => Some(color_number(c)),
        None => None,
    }
}

pub open spec fn align_of(t: Option<Seq<char>>) -> Option<Align> {
    match t {
        Some(a) => Some(
            if a == "center"@ {
                Align::Center
            } else if a == "right"@ {
                Align::Right
            } else if a == "left"@ {
                Align::Left
            } else {
                Align::General
            },
        ),
        None => None,
    }
}

/// The formatting that the styling keys of an object ask for.
pub open spec fn format_keys(o: Json) -> FormatView {
    FormatView {
        bold: is_set(o, "bold"@),
        italic: is_set(o, "italic"@),
        underline: is_set(o, "underline"@),
        font: as_text(field(o, "font"@)),
        size: as_num(field(o, "size"@)),
        color: opt_color(as_text(field(o, "color"@))),
        bg: opt_color(as_text(field(o, "bg"@))),
        align: align_of(as_text(field(o, "align"@))),
        num_format: as_text(field(o, "num_format"@)),
        border: is_set(o, "border"@),
    }
}

/// Whether a format asks for anything.
pub open spec fn is_styled(f: FormatView) -> bool {
    f.bold || f.italic || f.underline || f.font is Some || f.size is Some || f.color is Some
        || f.bg is Some || f.align is Some || f.num_format is Some || f.border
}

/// The format of a rich cell; nothing where it carries no styling.
pub open spec fn format_of(o: Json) -> Option<FormatView> {
    if is_styled(format_keys(o)) {
        Some(format_keys(o))
    } else {
        None
    }
}

fn read_format(o: &Value) -> (r: CellFormat)
    ensures
        r.deep_view() == format_keys(o.deep_view()),
{
    let color = match o.text_at("color") {
        Some(c) => Some(xlsx_color(c)),
        None => None,
    };
    let bg = match o.text_at("bg") {
        Some(c) => Some(xlsx_color(c)),
        None => None,
    };
    let align = match o.text_at("align") {
        Some(a) => Some(
            if same(a, "center") {
                Align::Center
            } else if same(a, "right") {
                Align::Right
            } else if same(a, "left") {
                Align::Left
            } else {
                Align::General
            },
        ),
        None => None,
    };
    CellFormat {
        bold: set_at(o, "bold"),
        italic: set_at(o, "italic"),
        underline: set_at(o, "underline"),
        font: copy_at(o, "font"),
        size: num_at(o, "size"),
        color,
        bg,
        align,
        num_format: copy_at(o, "num_format"),
        border: set_at(o, "border"),
    }
}

pub fn xlsx_format(o: &Value) -> (r: Option<CellFormat>)
    ensures
        opt_format(r) == format_of(o.deep_view()),
{
    let f = read_format(o);
    if f.bold || f.italic || f.underline || f.font.is_some() || f.size.is_some()
        || f.color.is_some() || f.bg.is_some() || f.align.is_some() || f.num_format.is_some()
        || f.border {
        Some(f)
    } else {
        None
    }
}

// ── cells ───────────────────────────────────────────────────────────────────

/// What is written into one cell.
pub enum CellWrite {
    Boolean(bool, Option<CellFormat>),
    Number(Number, Option<CellFormat>),
    Text(String, Option<CellFormat>),
    Formula(String, Option<CellFormat>),
    Link(String, Option<String>),
    Rich(Vec<(CellFormat, String)>),
}

#[verifier::ext_equal]
pub enum WriteView {
    Boolean(bool, Option<FormatView>),
    Number(Num, Option<FormatView>),
    Text(Seq<char>, Option<FormatView>),
    Formula(Seq<char>, Option<FormatView>),
    Link(Seq<char>, Option<Seq<char>>),
    Rich(Seq<(FormatView, Seq<char>)>),
}

impl DeepView for CellWrite {
    type V = WriteView;

    open spec fn deep_view(&self) -> WriteView {
        match self {
            CellWrite::Boolean(b, f) => WriteView::Boolean(*b, opt_format(*f)),
            CellWrite::Number(n, f) => WriteView::Number(n.deep_view(), opt_format(*f)),
            CellWrite::Text(t, f) => WriteView::Text(t@, opt_format(*f)),
            CellWrite::Formula(t, f) => WriteView::Formula(t@, opt_format(*f)),
            CellWrite::Link(t, s) => WriteView::Link(t@, opt_text(*s)),
            CellWrite::Rich(parts) => WriteView::Rich(parts.deep_view()),
        }
    }
}

pub open spec fn opt_write(w: Option<CellWrite>) -> Option<WriteView> {
    match w {
        Some(x) => Some(x.deep_view()),
        None => None,
    }
}

/// The parts of a rich string among the first `n` runs: those that are objects.
pub open spec fn rich_parts(runs: Seq<Json>, n: nat) -> Seq<(FormatView, Seq<char>)>
    decreases n,
{
    if n == 0 || n > runs.len() {
        Seq::empty()
    } else {
        let before = rich_parts(runs, (n - 1) as nat);
        let run = runs[n - 1];
        if run is Object {
            before.push(
                (
                    format_keys(run),
                    match field(run, "text"@) {
                        Some(t) => cell_text(t),
                        None => Seq::empty(),
                    },
                ),
            )
        } else {
            before
        }
    }
}

/// The member under `a`, else the one under `b`.
pub open spec fn either(o: Json, a: Seq<char>, b: Seq<char>) -> Option<Json> {
    match field(o, a) {
        Some(x) => Some(x),
        None => field(o, b),
    }
}

/// What a plain value with a format is written as.
pub open spec fn value_write(v: Json, f: Option<FormatView>) -> Option<WriteView> {
    match v {
        Json::Null => None,
        Json::Bool(b) => Some(WriteView::Boolean(b, f)),
        Json::Number(n) => Some(WriteView::Number(n, f)),
        _ => Some(WriteView::Text(cell_text(v), f)),
    }
}

/// What a cell is written as: nothing for null and for a rich cell without a
/// value, else a plain value, a rich string, a link or a formula.
pub open spec fn cell_write(cell: Json) -> Option<WriteView> {
    if cell is Object {
        match as_array(field(cell, "rich"@)) {
            Some(runs) => if rich_parts(runs, runs.len()).len() > 0 {
                Some(WriteView::Rich(rich_parts(runs, runs.len())))
            } else {
                None
            },
            None => match as_text(field(cell, "link"@)) {
                Some(link) => Some(WriteView::Link(link, as_text(either(cell, "v"@, "value"@)))),
                None => match as_text(either(cell, "f"@, "formula"@)) {
                    Some(formula) => Some(WriteView::Formula(formula, format_of(cell))),
                    None => value_write(shown(cell), format_of(cell)),
                },
            },
        }
    } else {
        value_write(cell, None)
    }
}

fn get_either<'a>(o: &'a Value, a: &str, b: &str) -> (r: Option<&'a Value>)
    ensures
        crate::value::opt_json(r) == either(o.deep_view(), a@, b@),
{
    match o.get(a) {
        Some(x) => Some(x),
        None => o.get(b),
    }
}

fn write_value(v: &Value, f: Option<CellFormat>) -> (r: Option<CellWrite>)
    ensures
        opt_write(r) == value_write(v.deep_view(), opt_format(f)),
{
    match v {
        Value::Null => None,
        Value::Bool(b) => Some(CellWrite::Boolean(*b, f)),
        Value::Number(n) => Some(CellWrite::Number(n.dup(), f)),
        _ => Some(CellWrite::Text(cell_to_string(v), f)),
    }
}

fn read_rich(runs: &Vec<Value>) -> (r: Vec<(CellFormat, String)>)
    ensures
        r.deep_view() == rich_parts(runs.deep_view(), runs@.len()),
{
    let mut out: Vec<(CellFormat, String)> = Vec::new();
    let mut i: usize = 0;
    assert(out.deep_view() =~= Seq::<(FormatView, Seq<char>)>::empty());
    while i < runs.len()
        invariant
            i <= runs@.len(),
            out.deep_view() == rich_parts(runs.deep_view(), i as nat),
        decreases runs@.len() - i,
    {
        assert(runs.deep_view()[i as int] == runs@[i as int].deep_view());
        if runs[i].is_object() {
            let text = match runs[i].get("text") {
                Some(t) => cell_to_string(t),
                None => String::new(),
            };
            let fmt = read_format(&runs[i]);
            let ghost part = (fmt.deep_view(), text@);
            push_deep(&mut out, (fmt, text));
            assert(out.deep_view().last() == part);
        }
        i = i + 1;
    }
    out
}

pub fn write_xlsx_cell(cell: &Value) -> (r: Option<CellWrite>)
    ensures
        opt_write(r) == cell_write(cell.deep_view()),
{
    if !cell.is_object() {
        return write_value(cell, None);
    }
    match cell.array_at("rich") {
        Some(runs) => {
            let parts = read_rich(runs);
            if parts.len() > 0 {
                return Some(CellWrite::Rich(parts));
            }
            return None;
        },
        None => {},
    }
    match cell.text_at("link") {
        Some(link) => {
            let text = match get_either(cell, "v", "value") {
                Some(v) => match v.as_str() {
                    Some(t) => Some(copy_text(t)),
                    None => None,
                },
                None => None,
            };
            return Some(CellWrite::Link(copy_text(link), text));
        },
        None => {},
    }
    let fmt = xlsx_format(cell);
    match get_either(cell, "f", "formula") {
        Some(v) => match v.as_str() {
            Some(t) => {
                return Some(CellWrite::Formula(copy_text(t), fmt));
            },
            None => {},
        },
        None => {},
    }
    match get_either(cell, "v", "value") {
        Some(v) => write_value(v, fmt),
        None => None,
    }
}

// ── sheet commands ──────────────────────────────────────────────────────────

#[derive(Clone, Copy, PartialEq, Eq, Structural)]
pub enum ChartKind {
    Bar,
    Line,
    Pie,
    Scatter,
    Area,
    Doughnut,
    Column,
}

#[derive(Clone, Copy, PartialEq, Eq, Structural)]
pub enum Rule {
    LessThan,
    GreaterEqual,
    LessEqual,
    Equal,
    NotEqual,
    Between,
    NotBetween,
    GreaterThan,
}

#[derive(Clone, Copy, PartialEq, Eq, Structural)]
pub enum SparkKind {
    Line,
    Column,
    WinLose,
}

/// A series of a chart: the cells of its values and categories, and its name.
pub struct Series {
    pub values: Option<Area>,
    pub categories: Option<Area>,
    pub name: Option<String>,
}

#[verifier::ext_equal]
pub struct SeriesView {
    pub values: Option<Area>,
    pub categories: Option<Area>,
    pub name: Option<Seq<char>>,
}

impl DeepView for Series {
    type V = SeriesView;

    open spec fn deep_view(&self) -> SeriesView {
        SeriesView {
            values: self.values,
            categories: self.categories,
            name: opt_text(self.name),
        }
    }
}

/// What is done to a sheet.
pub enum SheetCmd {
    Cell(u32, u16, CellWrite),
    Merge(Area, String),
    ColumnWidth(u16, Number),
    RowHeight(u32, Number),
    Freeze(u32, u16),
    Autofilter(Area),
    Table(Area),
    Chart { kind: ChartKind, title: Option<String>, series: Vec<Series>, row: u32, col: u16 },
    Conditional {
        area: Area,
        rule: Rule,
        value: Option<Number>,
        value2: Option<Number>,
        format: Option<CellFormat>,
    },
    Validation(Area, Vec<String>),
    Protect,
    TabColor(u32),
    Zoom(u16),
    Landscape,
    Paper(u8),
    PrintGridlines,
    Header(String),
    Footer(String),
    PrintArea(Area),
    RepeatRows(u32, u32),
    /// Left, right, top, bottom, header, footer; nothing for the default.
    Margins(Vec<Option<Number>>),
    Note(u32, u16, String, Option<String>),
    Image(u32, u16, String),
    Sparkline {
        row: u32,
        col: u16,
        area: Area,
        style: SparkKind,
        markers: bool,
        high: bool,
        low: bool,
    },
    GroupRows(u32, u32),
    GroupColumns(u16, u16),
    HideRow(u32),
    HideColumn(u16),
    Autofit,
}

#[verifier::ext_equal]
pub enum CmdView {
    Cell(u32, u16, WriteView),
    Merge(Area, Seq<char>),
    ColumnWidth(u16, Num),
    RowHeight(u32, Num),
    Freeze(u32, u16),
    Autofilter(Area),
    Table(Area),
    Chart {
        kind: ChartKind,
        title: Option<Seq<char>>,
        series: Seq<SeriesView>,
        row: u32,
        col: u16,
    },
    Conditional {
        area: Area,
        rule: Rule,
        value: Option<Num>,
        value2: Option<Num>,
        format: Option<FormatView>,
    },
    Validation(Area, Seq<Seq<char>>),
    Protect,
    TabColor(u32),
    Zoom(u16),
    Landscape,
    Paper(u8),
    PrintGridlines,
    Header(Seq<char>),
    Footer(Seq<char>),
    PrintArea(Area),
    RepeatRows(u32, u32),
    Margins(Seq<Option<Num>>),
    Note(u32, u16, Seq<char>, Option<Seq<char>>),
    Image(u32, u16, Seq<char>),
    Sparkline {
        row: u32,
        col: u16,
        area: Area,
        style: SparkKind,
        markers: bool,
        high: bool,
        low: bool,
    },
    GroupRows(u32, u32),
    GroupColumns(u16, u16),
    HideRow(u32),
    HideColumn(u16),
    Autofit,
}

pub open spec fn opt_nums(v: Seq<Option<Number>>) -> Seq<Option<Num>> {
    Seq::new(v.len(), |i: int| opt_num(v[i]))
}

impl DeepView for SheetCmd {
    type V = CmdView;

    open spec fn deep_view(&self) -> CmdView {
        match self {
            SheetCmd::Cell(r, c, w) => CmdView::Cell(*r, *c, w.deep_view()),
            SheetCmd::Merge(a, t) => CmdView::Merge(*a, t@),
            SheetCmd::ColumnWidth(c, n) => CmdView::ColumnWidth(*c, n.deep_view()),
            SheetCmd::RowHeight(r, n) => CmdView::RowHeight(*r, n.deep_view()),
            SheetCmd::Freeze(r, c) => CmdView::Freeze(*r, *c),
            SheetCmd::Autofilter(a) => CmdView::Autofilter(*a),
            SheetCmd::Table(a) => CmdView::Table(*a),
            SheetCmd::Chart { kind, title, series, row, col } => CmdView::Chart {
                kind: *kind,
                title: opt_text(*title),
                series: series.deep_view(),
                row: *row,
                col: *col,
            },
            SheetCmd::Conditional { area, rule, value, value2, format } => CmdView::Conditional {
                area: *area,
                rule: *rule,
                value: opt_num(*value),
                value2: opt_num(*value2),
                format: opt_format(*format),
            },
            SheetCmd::Validation(a, items) => CmdView::Validation(*a, items.deep_view()),
            SheetCmd::Protect => CmdView::Protect,
            SheetCmd::TabColor(c) => CmdView::TabColor(*c),
            SheetCmd::Zoom(z) => CmdView::Zoom(*z),
            SheetCmd::Landscape => CmdView::Landscape,
            SheetCmd::Paper(p) => CmdView::Paper(*p),
            SheetCmd::PrintGridlines => CmdView::PrintGridlines,
            SheetCmd::Header(t) => CmdView::Header(t@),
            SheetCmd::Footer(t) => CmdView::Footer(t@),
            SheetCmd::PrintArea(a) => CmdView::PrintArea(*a),
            SheetCmd::RepeatRows(a, b) => CmdView::RepeatRows(*a, *b),
            SheetCmd::Margins(m) => CmdView::Margins(opt_nums(m@)),
            SheetCmd::Note(r, c, t, a) => CmdView::Note(*r, *c, t@, opt_text(*a)),
            SheetCmd::Image(r, c, p) => CmdView::Image(*r, *c, p@),
            SheetCmd::Sparkline { row, col, area, style, markers, high, low } =>
                CmdView::Sparkline {
                row: *row,
                col: *col,
                area: *area,
                style: *style,
                markers: *markers,
                high: *high,
                low: *low,
            },
            SheetCmd::GroupRows(a, b) => CmdView::GroupRows(*a, *b),
            SheetCmd::GroupColumns(a, b) => CmdView::GroupColumns(*a, *b),
            SheetCmd::HideRow(r) => CmdView::HideRow(*r),
            SheetCmd::HideColumn(c) => CmdView::HideColumn(*c),
            SheetCmd::Autofit => CmdView::Autofit,
        }
    }
}

pub open spec fn opt_cmd(c: Option<SheetCmd>) -> Option<CmdView> {
    match c {
        Some(x) => Some(x.deep_view()),
        None => None,
    }
}

/// A command where there is one.
pub open spec fn one(c: Option<CmdView>) -> Seq<CmdView> {
    match c {
        Some(x) => seq![x],
        None => Seq::empty(),
    }
}

pub(crate) fn push_one(out: &mut Vec<SheetCmd>, c: Option<SheetCmd>)
    ensures
        final(out).deep_view() == old(out).deep_view() + one(opt_cmd(c)),
{
    match c {
        Some(x) => {
            push_deep(out, x);
        },
        None => {},
    }
    assert(out.deep_view() =~= old(out).deep_view() + one(opt_cmd(c)));
}

/// The commands that the first `n` items make.
pub open spec fn each(a: Seq<Json>, g: spec_fn(Json) -> Option<CmdView>, n: nat) -> Seq<CmdView>
    decreases n,
{
    if n == 0 || n > a.len() {
        Seq::empty()
    } else {
        each(a, g, (n - 1) as nat) + one(g(a[n - 1]))
    }
}

/// The commands that the items of the array under a key make.
pub open spec fn listed(s: Json, key: Seq<char>, g: spec_fn(Json) -> Option<CmdView>) -> Seq<
    CmdView,
> {
    match as_array(field(s, key)) {
        Some(a) => each(a, g, a.len()),
        None => Seq::empty(),
    }
}

pub(crate) fn push_listed<F: Fn(&Value) -> Option<SheetCmd>>(
    out: &mut Vec<SheetCmd>,
    s: &Value,
    key: &str,
    f: F,
    Ghost(g): Ghost<spec_fn(Json) -> Option<CmdView>>,
)
    requires
        forall|v: &Value| #[trigger] f.requires((v,)),
        forall|v: &Value, r: Option<SheetCmd>|
            #[trigger] f.ensures((v,), r) ==> opt_cmd(r) == g(v.deep_view()),
    ensures
        final(out).deep_view() == old(out).deep_view() + listed(s.deep_view(), key@, g),
{
    let ghost before = out.deep_view();
    match s.array_at(key) {
        Some(a) => {
            let mut i: usize = 0;
            assert(out.deep_view() =~= before + each(a.deep_view(), g, 0));
            while i < a.len()
                invariant
                    i <= a@.len(),
                    forall|v: &Value| #[trigger] f.requires((v,)),
                    forall|v: &Value, r: Option<SheetCmd>|
                        #[trigger] f.ensures((v,), r) ==> opt_cmd(r) == g(v.deep_view()),
                    out.deep_view() == before + each(a.deep_view(), g, i as nat),
                decreases a@.len() - i,
            {
                assert(a.deep_view()[i as int] == a@[i as int].deep_view());
                let c = f(&a[i]);
                push_one(out, c);
                i = i + 1;
                assert(out.deep_view() =~= before + each(a.deep_view(), g, i as nat));
            }
        },
        None => {
            assert(out.deep_view() =~= before + listed(s.deep_view(), key@, g));
        },
    }
}

} // verus!
