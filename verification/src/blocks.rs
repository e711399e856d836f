//! Documents as blocks: headings, paragraphs, lists and tables, read from the
//! XML of word-processor files and from HTML.

use crate::deep::push_deep;
use crate::text::{
    ascii_lower, char_is_digit, chars_of, decimal, decimal_reads_back, is_ascii, is_digit, join,
    lemma_decimal_digits, lower, lowercase, parse_nat, parse_u64_at, same, squeeze, squeezed,
    to_lowercase, trim, trim_text,
};
use crate::value::{add_member, array, object, text_value, Json, Num, Number, Value};
use crate::xml::{
    attr, attr_pos, attr_resolved, event_text, events_say_their_text, last_pair, lookup_pair,
    push_event_text, raw_attr, relationship_pairs, rels_id_target_map, resolved_attr, said, said_by,
    starts_with, text_starts_with, xml_events, xml_items, AttrView, EventView, Tag, TagView,
    XmlEvent,
};
use vstd::prelude::*;

verus! {

// ── block values ────────────────────────────────────────────────────────────

pub open spec fn heading_block(level: u64, text: Seq<char>) -> Json {
    Json::Object(
        seq![
            ("kind"@, Json::Text("heading"@)),
            ("level"@, Json::Number(Num::Unsigned(level))),
            ("text"@, Json::Text(text)),
        ],
    )
}

pub open spec fn para_block(text: Seq<char>) -> Json {
    Json::Object(seq![("kind"@, Json::Text("para"@)), ("text"@, Json::Text(text))])
}

pub open spec fn table_block(rows: Seq<Json>) -> Json {
    Json::Object(seq![("kind"@, Json::Text("table"@)), ("rows"@, Json::Array(rows))])
}

pub open spec fn list_block(ordered: bool, items: Seq<Json>) -> Json {
    Json::Object(
        seq![
            ("kind"@, Json::Text("list"@)),
            ("ordered"@, Json::Bool(ordered)),
            ("items"@, Json::Array(items)),
        ],
    )
}

/// A row of cell texts as a JSON array.
pub open spec fn text_row(cells: Seq<Seq<char>>) -> Json {
    Json::Array(Seq::new(cells.len(), |i: int| Json::Text(cells[i])))
}

pub fn make_heading(level: u64, text: &str) -> (r: Value)
    ensures
        r.deep_view() == heading_block(level, text@),
{
    let mut o: Vec<(String, Value)> = Vec::new();
    add_member(&mut o, "kind", text_value("heading"));
    add_member(&mut o, "level", Value::Number(Number::Unsigned(level)));
    add_member(&mut o, "text", text_value(text));
    assert(o.deep_view() =~= heading_block(level, text@)->Object_0);
    object(o)
}

pub fn make_para(text: &str) -> (r: Value)
    ensures
        r.deep_view() == para_block(text@),
{
    let mut o: Vec<(String, Value)> = Vec::new();
    add_member(&mut o, "kind", text_value("para"));
    add_member(&mut o, "text", text_value(text));
    assert(o.deep_view() =~= para_block(text@)->Object_0);
    object(o)
}

pub fn make_table(rows: Vec<Value>) -> (r: Value)
    ensures
        r.deep_view() == table_block(rows.deep_view()),
{
    let mut o: Vec<(String, Value)> = Vec::new();
    add_member(&mut o, "kind", text_value("table"));
    add_member(&mut o, "rows", array(rows));
    assert(o.deep_view() =~= table_block(rows.deep_view())->Object_0);
    object(o)
}

pub fn make_list(ordered: bool, items: Vec<Value>) -> (r: Value)
    ensures
        r.deep_view() == list_block(ordered, items.deep_view()),
{
    let mut o: Vec<(String, Value)> = Vec::new();
    add_member(&mut o, "kind", text_value("list"));
    add_member(&mut o, "ordered", Value::Bool(ordered));
    add_member(&mut o, "items", array(items));
    assert(o.deep_view() =~= list_block(ordered, items.deep_view())->Object_0);
    object(o)
}

/// A row of cell texts as a JSON array.
pub fn make_text_row(cells: Vec<String>) -> (r: Value)
    ensures
        r.deep_view() == text_row(cells.deep_view()),
{
    let mut out: Vec<Value> = Vec::new();
    let mut i: usize = 0;
    while i < cells.len()
        invariant
            i <= cells@.len(),
            out.deep_view() == text_row(cells.deep_view())->Array_0.take(i as int),
        decreases cells@.len() - i,
    {
        push_deep(&mut out, text_value(cells[i].as_str()));
        i = i + 1;
        assert(out.deep_view() =~= text_row(cells.deep_view())->Array_0.take(i as int));
    }
    assert(out.deep_view() =~= text_row(cells.deep_view())->Array_0);
    array(out)
}

/// Appends a table block made of the rows.
pub fn flush_table_block(rows: Vec<Value>, blocks: &mut Vec<Value>)
    ensures
        final(blocks).deep_view() == old(blocks).deep_view().push(table_block(rows.deep_view())),
{
    push_deep(blocks, make_table(rows));
}

// ── tables ──────────────────────────────────────────────────────────────────

/// The element names that make a table in a format.
pub struct TableTags {
    pub table: &'static str,
    pub row: &'static str,
    pub cell: &'static str,
    /// A paragraph inside a cell; a further one starts a new line of the cell.
    pub para: &'static str,
}

/// The names of [`TableTags`] as character sequences.
#[verifier::ext_equal]
pub struct TagNames {
    pub table: Seq<char>,
    pub row: Seq<char>,
    pub cell: Seq<char>,
    pub para: Seq<char>,
}

impl View for TableTags {
    type V = TagNames;

    open spec fn view(&self) -> TagNames {
        TagNames { table: self.table@, row: self.row@, cell: self.cell@, para: self.para@ }
    }
}

pub open spec fn docx_tags() -> TagNames {
    TagNames { table: "w:tbl"@, row: "w:tr"@, cell: "w:tc"@, para: "w:p"@ }
}

pub open spec fn odt_tags() -> TagNames {
    TagNames {
        table: "table:table"@,
        row: "table:table-row"@,
        cell: "table:table-cell"@,
        para: "text:p"@,
    }
}

impl TableTags {
    pub fn docx() -> (r: TableTags)
        ensures
            r@ == docx_tags(),
    {
        TableTags { table: "w:tbl", row: "w:tr", cell: "w:tc", para: "w:p" }
    }

    pub fn odt() -> (r: TableTags)
        ensures
            r@ == odt_tags(),
    {
        TableTags {
            table: "table:table",
            row: "table:table-row",
            cell: "table:table-cell",
            para: "text:p",
        }
    }
}

/// What has been read of the table that is open: its complete rows, the cells of
/// the open row, the text of the open cell, how deep in tables the reader is, and
/// whether it is inside a cell of the outermost one.
#[verifier::ext_equal]
pub struct GridView {
    pub rows: Seq<Json>,
    pub row: Seq<Seq<char>>,
    pub cell: Seq<char>,
    pub depth: int,
    pub capturing: bool,
}

pub open spec fn empty_grid() -> GridView {
    GridView {
        rows: Seq::empty(),
        row: Seq::empty(),
        cell: Seq::empty(),
        depth: 0,
        capturing: false,
    }
}

pub open spec fn grid_start(g: GridView, n: Seq<char>, t: TagNames) -> GridView {
    if n == t.table {
        if g.depth == 0 {
            GridView { depth: 1, rows: Seq::empty(), ..g }
        } else {
            GridView { depth: g.depth + 1, ..g }
        }
    } else if g.depth == 1 && n == t.row {
        GridView { row: Seq::empty(), ..g }
    } else if g.depth == 1 && n == t.cell {
        GridView { cell: Seq::empty(), capturing: true, ..g }
    } else if g.capturing && n == t.para && g.cell.len() > 0 {
        GridView { cell: g.cell.push('\n'), ..g }
    } else {
        g
    }
}

pub open spec fn grid_text(g: GridView, ev: EventView) -> GridView {
    if g.capturing {
        GridView { cell: g.cell + event_text(ev), ..g }
    } else {
        g
    }
}

/// Whether the end tag `n` closes the outermost table.
pub open spec fn closes_table(g: GridView, n: Seq<char>, t: TagNames) -> bool {
    g.depth == 1 && n != t.cell && n != t.row && n == t.table
}

pub open spec fn grid_end(g: GridView, n: Seq<char>, t: TagNames) -> GridView {
    if g.depth == 1 && n == t.cell {
        GridView { capturing: false, row: g.row.push(g.cell), cell: Seq::empty(), ..g }
    } else if g.depth == 1 && n == t.row {
        GridView { rows: g.rows.push(text_row(g.row)), row: Seq::empty(), ..g }
    } else if closes_table(g, n, t) {
        GridView { depth: 0, rows: Seq::empty(), ..g }
    } else if n == t.table {
        GridView { depth: g.depth - 1, ..g }
    } else {
        g
    }
}

pub struct Grid {
    pub rows: Vec<Value>,
    pub row: Vec<String>,
    pub cell: String,
    pub depth: i128,
    pub capturing: bool,
}

impl View for Grid {
    type V = GridView;

    open spec fn view(&self) -> GridView {
        GridView {
            rows: self.rows.deep_view(),
            row: self.row.deep_view(),
            cell: self.cell@,
            depth: self.depth as int,
            capturing: self.capturing,
        }
    }
}

impl Grid {
    fn new() -> (r: Grid)
        ensures
            r@ == empty_grid(),
    {
        let r = Grid {
            rows: Vec::new(),
            row: Vec::new(),
            cell: String::new(),
            depth: 0,
            capturing: false,
        };
        assert(r@ =~= empty_grid());
        r
    }

    fn start(self, n: &str, t: &TableTags) -> (r: Grid)
        requires
            self.depth < 0x1_0000_0000_0000_0000_0000,
        ensures
            r@ == grid_start(self@, n@, t@),
    {
        let ghost before = self@;
        let mut g = self;
        if same(n, t.table) {
            g.depth = g.depth + 1;
            if g.depth == 1 {
                g.rows = Vec::new();
            }
        } else if g.depth == 1 && same(n, t.row) {
            g.row = Vec::new();
        } else if g.depth == 1 && same(n, t.cell) {
            g.cell = String::new();
            g.capturing = true;
        } else if g.capturing && same(n, t.para) && !g.cell.as_str().is_empty() {
            g.cell.push('\n');
        }
        assert(g@ =~= grid_start(before, n@, t@));
        g
    }

    fn text(self, ev: &XmlEvent) -> (r: Grid)
        ensures
            r@ == grid_text(self@, ev.deep_view()),
    {
        let mut g = self;
        if g.capturing {
            push_event_text(&mut g.cell, ev);
        }
        g
    }

    /// Takes an end tag in; hands out the rows of the outermost table where the
    /// tag closes it.
    fn end(self, n: &str, t: &TableTags) -> (r: (Grid, Option<Vec<Value>>))
        requires
            self.depth > -0x1_0000_0000_0000_0000_0000,
        ensures
            r.0@ == grid_end(self@, n@, t@),
            match r.1 {
                Some(rows) => closes_table(self@, n@, t@) && rows.deep_view() == self@.rows,
                None => !closes_table(self@, n@, t@),
            },
    {
        let ghost before = self@;
        let mut g = self;
        if g.depth == 1 && same(n, t.cell) {
            g.capturing = false;
            push_deep(&mut g.row, g.cell);
            g.cell = String::new();
        } else if g.depth == 1 && same(n, t.row) {
            push_deep(&mut g.rows, make_text_row(g.row));
            g.row = Vec::new();
        } else if same(n, t.table) {
            g.depth = g.depth - 1;
            if g.depth == 0 {
                let rows = g.rows;
                g.rows = Vec::new();
                assert(g@ =~= grid_end(before, n@, t@));
                return (g, Some(rows));
            }
        }
        assert(g@ =~= grid_end(before, n@, t@));
        (g, None)
    }
}

/// A table as `{ rows }`.
pub open spec fn rows_object(rows: Seq<Json>) -> Json {
    Json::Object(seq![("rows"@, Json::Array(rows))])
}

#[verifier::ext_equal]
pub struct TablesView {
    pub out: Seq<Json>,
    pub grid: GridView,
}

pub open spec fn tables_step(st: TablesView, ev: EventView, t: TagNames) -> TablesView {
    match ev {
        EventView::Start(tag) => TablesView { grid: grid_start(st.grid, tag.name, t), ..st },
        EventView::End(n) => TablesView {
            out: if closes_table(st.grid, n, t) {
                st.out.push(rows_object(st.grid.rows))
            } else {
                st.out
            },
            grid: grid_end(st.grid, n, t),
        },
        _ => TablesView { grid: grid_text(st.grid, ev), ..st },
    }
}

/// The state after the first `n` events.
pub open spec fn tables_run(evs: Seq<EventView>, t: TagNames, n: nat) -> TablesView
    decreases n,
{
    if n == 0 || n > evs.len() {
        TablesView { out: Seq::empty(), grid: empty_grid() }
    } else {
        tables_step(tables_run(evs, t, (n - 1) as nat), evs[n - 1], t)
    }
}

/// The outermost tables among events, as `{ rows }` with rows of cell texts. A
/// table inside a cell adds its text to that cell.
pub fn collect_tables(evs: &Vec<XmlEvent>, t: &TableTags) -> (r: Vec<Value>)
    ensures
        r.deep_view() == tables_run(evs.deep_view(), t@, evs@.len()).out,
{
    let mut out: Vec<Value> = Vec::new();
    let mut grid = Grid::new();
    let mut i: usize = 0;
    assert(out.deep_view() =~= Seq::<Json>::empty());
    while i < evs.len()
        invariant
            i <= evs@.len(),
            -(i as int) <= grid.depth <= i,
            (TablesView { out: out.deep_view(), grid: grid@ }) == tables_run(
                evs.deep_view(),
                t@,
                i as nat,
            ),
        decreases evs@.len() - i,
    {
        assert(evs.deep_view()[i as int] == evs@[i as int].deep_view());
        match &evs[i] {
            XmlEvent::Start(tag) => {
                grid = grid.start(tag.name.as_str(), t);
            },
            XmlEvent::End(n) => {
                let (g, done) = grid.end(n.as_str(), t);
                grid = g;
                match done {
                    Some(rows) => {
                        let mut o: Vec<(String, Value)> = Vec::new();
                        let ghost rv = rows.deep_view();
                        add_member(&mut o, "rows", array(rows));
                        assert(o.deep_view() =~= rows_object(rv)->Object_0);
                        push_deep(&mut out, object(o));
                    },
                    None => {},
                }
            },
            ev => {
                grid = grid.text(ev);
            },
        }
        i = i + 1;
    }
    out
}

/// Every table of an XML part.
pub fn extract_tables(xml: &[u8], t: &TableTags) -> (r: Vec<Value>)
    ensures
        r.deep_view() == tables_run(xml_items(xml@, true), t@, xml_items(xml@, true).len()).out,
{
    let evs = xml_events(xml, true);
    collect_tables(&evs, t)
}

// ── headings ────────────────────────────────────────────────────────────────

/// The digits among the first `n` characters.
pub open spec fn digits_among(s: Seq<char>, n: nat) -> Seq<char>
    decreases n,
{
    if n == 0 || n > s.len() {
        Seq::empty()
    } else if is_digit(s[n - 1]) {
        digits_among(s, (n - 1) as nat).push(s[n - 1])
    } else {
        digits_among(s, (n - 1) as nat)
    }
}

pub fn keep_digits(s: &str) -> (r: String)
    ensures
        r@ == digits_among(s@, s@.len()),
{
    let cs = chars_of(s);
    let mut out = String::new();
    let mut i: usize = 0;
    while i < cs.len()
        invariant
            i <= cs@.len(),
            out@ == digits_among(cs@, i as nat),
        decreases cs@.len() - i,
    {
        if char_is_digit(cs[i]) {
            out.push(cs[i]);
        }
        i = i + 1;
    }
    out
}

/// A heading level brought into 1 to 9; 1 where there is none.
pub open spec fn level_1_9(n: Option<nat>) -> u64 {
    match n {
        Some(v) => if v < 1 {
            1
        } else if v > 9 {
            9
        } else {
            v as u64
        },
        None => 1,
    }
}

fn clamp_level(n: Option<u64>) -> (r: u64)
    ensures
        r == level_1_9(
            match n {
                Some(v) => Some(v as nat),
                None => None,
            },
        ),
{
    match n {
        Some(v) => if v < 1 {
            1
        } else if v > 9 {
            9
        } else {
            v
        },
        None => 1,
    }
}

/// The heading level of a paragraph style: 1 to 9 for `Heading1` to `Heading9` in any
/// case, 1 for `Heading` alone, and nothing for any other style.
pub open spec fn style_level(style: Seq<char>) -> Option<u64> {
    let l = lower(trim(style));
    let p = "heading"@;
    if !starts_with(l, p) {
        None
    } else if l.len() == p.len() {
        Some(1)
    } else if l.len() == p.len() + 1 && '1' <= l.last() <= '9' {
        Some((l.last() as int - '0' as int) as u64)
    } else {
        None
    }
}

fn parse_u64(s: &str) -> (r: Option<u64>)
    ensures
        match r {
            Some(v) => parse_nat(s@, u64::MAX as nat) == Some(v as nat),
            None => parse_nat(s@, u64::MAX as nat) is None,
        },
{
    let cs = chars_of(s);
    assert(cs@.subrange(0, cs@.len() as int) =~= cs@);
    parse_u64_at(&cs, 0, cs.len())
}

pub fn heading_level_from_style(style: &str) -> (r: Option<u64>)
    ensures
        r == style_level(style@),
{
    let l = ascii_lower(trim_text(style).as_str());
    if !text_starts_with(l.as_str(), "heading") {
        return None;
    }
    let cs = chars_of(l.as_str());
    let p = chars_of("heading");
    if cs.len() == p.len() {
        return Some(1);
    }
    let last = cs[cs.len() - 1];
    if cs.len() - p.len() == 1 && '1' <= last && last <= '9' {
        Some((last as u64) - ('0' as u64))
    } else {
        None
    }
}

// ── docx and odt bodies ─────────────────────────────────────────────────────

/// What has been read of a document body.
#[verifier::ext_equal]
pub struct BodyView {
    pub blocks: Seq<Json>,
    pub grid: GridView,
    pub in_para: bool,
    pub para: Seq<char>,
    pub heading: Option<u64>,
}

pub open spec fn empty_body() -> BodyView {
    BodyView {
        blocks: Seq::empty(),
        grid: empty_grid(),
        in_para: false,
        para: Seq::empty(),
        heading: None,
    }
}

/// The heading level after a tag inside a paragraph: a paragraph style that names
/// a heading sets it.
pub open spec fn noted_style(tag: TagView, heading: Option<u64>) -> Option<u64> {
    if tag.name == "w:pStyle"@ {
        match raw_attr(tag, "w:val"@) {
            Some(v) => match style_level(v) {
                Some(level) => Some(level),
                None => heading,
            },
            None => heading,
        }
    } else {
        heading
    }
}

/// The block that a finished paragraph makes.
pub open spec fn body_block(heading: Option<u64>, text: Seq<char>) -> Json {
    match heading {
        Some(level) => heading_block(level, text),
        None => para_block(text),
    }
}

pub open spec fn body_text(st: BodyView, ev: EventView) -> BodyView {
    if st.grid.depth >= 1 {
        BodyView { grid: grid_text(st.grid, ev), ..st }
    } else if st.in_para {
        BodyView { para: st.para + event_text(ev), ..st }
    } else {
        st
    }
}

/// An end tag, where `closes` says whether it ends a paragraph.
pub open spec fn body_end(st: BodyView, n: Seq<char>, closes: bool, t: TagNames) -> BodyView {
    if st.grid.depth >= 1 {
        BodyView {
            blocks: if closes_table(st.grid, n, t) {
                st.blocks.push(table_block(st.grid.rows))
            } else {
                st.blocks
            },
            grid: grid_end(st.grid, n, t),
            ..st
        }
    } else if closes && st.in_para {
        BodyView {
            blocks: st.blocks.push(body_block(st.heading, st.para)),
            in_para: false,
            para: Seq::empty(),
            ..st
        }
    } else {
        st
    }
}

pub open spec fn docx_step(st: BodyView, ev: EventView, t: TagNames) -> BodyView {
    match ev {
        EventView::Start(tag) => if tag.name == t.table || st.grid.depth >= 1 {
            BodyView { grid: grid_start(st.grid, tag.name, t), ..st }
        } else if tag.name == "w:p"@ {
            BodyView { in_para: true, para: Seq::empty(), heading: None, ..st }
        } else if st.in_para {
            BodyView { heading: noted_style(tag, st.heading), ..st }
        } else {
            st
        },
        EventView::Empty(tag) => if st.in_para && st.grid.depth == 0 {
            BodyView { heading: noted_style(tag, st.heading), ..st }
        } else {
            st
        },
        EventView::End(n) => body_end(st, n, n == "w:p"@, t),
        _ => body_text(st, ev),
    }
}

/// The heading level that a `text:h` element names.
pub open spec fn outline_level(tag: TagView) -> u64 {
    level_1_9(
        match raw_attr(tag, "text:outline-level"@) {
            Some(v) => parse_nat(trim(v), u64::MAX as nat),
            None => None,
        },
    )
}

pub open spec fn odt_step(st: BodyView, ev: EventView, t: TagNames) -> BodyView {
    match ev {
        EventView::Start(tag) => if tag.name == t.table || st.grid.depth >= 1 {
            BodyView { grid: grid_start(st.grid, tag.name, t), ..st }
        } else if tag.name == "text:h"@ {
            BodyView {
                in_para: true,
                para: Seq::empty(),
                heading: Some(outline_level(tag)),
                ..st
            }
        } else if tag.name == t.para {
            BodyView { in_para: true, para: Seq::empty(), heading: None, ..st }
        } else {
            st
        },
        EventView::Empty(_) => st,
        EventView::End(n) => body_end(st, n, n == "text:h"@ || n == t.para, t),
        _ => body_text(st, ev),
    }
}

/// The state after the first `n` events of a docx body.
pub open spec fn docx_run(evs: Seq<EventView>, t: TagNames, n: nat) -> BodyView
    decreases n,
{
    if n == 0 || n > evs.len() {
        empty_body()
    } else {
        docx_step(docx_run(evs, t, (n - 1) as nat), evs[n - 1], t)
    }
}

/// The state after the first `n` events of an odt body.
pub open spec fn odt_run(evs: Seq<EventView>, t: TagNames, n: nat) -> BodyView
    decreases n,
{
    if n == 0 || n > evs.len() {
        empty_body()
    } else {
        odt_step(odt_run(evs, t, (n - 1) as nat), evs[n - 1], t)
    }
}

/// The blocks of a docx body, in document order.
pub open spec fn docx_blocks(evs: Seq<EventView>) -> Seq<Json> {
    docx_run(evs, docx_tags(), evs.len()).blocks
}

/// The blocks of an odt body, in document order.
pub open spec fn odt_blocks(evs: Seq<EventView>) -> Seq<Json> {
    odt_run(evs, odt_tags(), evs.len()).blocks
}

pub struct Body {
    pub blocks: Vec<Value>,
    pub grid: Grid,
    pub in_para: bool,
    pub para: String,
    pub heading: Option<u64>,
}

impl View for Body {
    type V = BodyView;

    open spec fn view(&self) -> BodyView {
        BodyView {
            blocks: self.blocks.deep_view(),
            grid: self.grid@,
            in_para: self.in_para,
            para: self.para@,
            heading: self.heading,
        }
    }
}

impl Body {
    fn new() -> (r: Body)
        ensures
            r@ == empty_body(),
    {
        let r = Body {
            blocks: Vec::new(),
            grid: Grid::new(),
            in_para: false,
            para: String::new(),
            heading: None,
        };
        assert(r@ =~= empty_body());
        r
    }

    fn note_style(self, tag: &Tag) -> (r: Body)
        ensures
            r@ == (BodyView { heading: noted_style(tag.deep_view(), self.heading), ..self@ }),
            r.grid.depth == self.grid.depth,
    {
        let mut b = self;
        if same(tag.name.as_str(), "w:pStyle") {
            match attr(tag, "w:val") {
                Some(v) => match heading_level_from_style(v) {
                    Some(level) => {
                        b.heading = Some(level);
                    },
                    None => {},
                },
                None => {},
            }
        }
        b
    }

    fn text(self, ev: &XmlEvent) -> (r: Body)
        ensures
            r@ == body_text(self@, ev.deep_view()),
    {
        let mut b = self;
        if b.grid.depth >= 1 {
            b.grid = b.grid.text(ev);
        } else if b.in_para {
            push_event_text(&mut b.para, ev);
        }
        b
    }

    fn end(self, n: &str, closes: bool, t: &TableTags) -> (r: Body)
        ensures
            r@ == body_end(self@, n@, closes, t@),
    {
        let ghost before = self@;
        let mut b = self;
        if b.grid.depth >= 1 {
            let (g, done) = b.grid.end(n, t);
            b.grid = g;
            match done {
                Some(rows) => {
                    flush_table_block(rows, &mut b.blocks);
                },
                None => {},
            }
        } else if closes && b.in_para {
            b.in_para = false;
            let block = match b.heading {
                Some(level) => make_heading(level, b.para.as_str()),
                None => make_para(b.para.as_str()),
            };
            push_deep(&mut b.blocks, block);
            b.para = String::new();
        }
        assert(b@ =~= body_end(before, n@, closes, t@));
        b
    }

    fn open_para(self, heading: Option<u64>) -> (r: Body)
        ensures
            r@ == (BodyView { in_para: true, para: Seq::empty(), heading, ..self@ }),
    {
        let mut b = self;
        b.in_para = true;
        b.para = String::new();
        b.heading = heading;
        b
    }
}

proof fn lemma_body_depth(evs: Seq<EventView>, t: TagNames, n: nat)
    ensures
        -(n as int) <= docx_run(evs, t, n).grid.depth <= n,
        -(n as int) <= odt_run(evs, t, n).grid.depth <= n,
    decreases n,
{
    if n > 0 && n <= evs.len() {
        lemma_body_depth(evs, t, (n - 1) as nat);
    }
}

/// The blocks of a docx body among events, in document order: headings,
/// paragraphs and tables. A paragraph inside a table belongs to its cell.
pub fn collect_blocks_docx(evs: &Vec<XmlEvent>) -> (r: Vec<Value>)
    ensures
        r.deep_view() == docx_blocks(evs.deep_view()),
{
    let t = TableTags::docx();
    let mut b = Body::new();
    let mut i: usize = 0;
    while i < evs.len()
        invariant
            i <= evs@.len(),
            t@ == docx_tags(),
            b@ == docx_run(evs.deep_view(), t@, i as nat),
        decreases evs@.len() - i,
    {
        assert(evs.deep_view()[i as int] == evs@[i as int].deep_view());
        proof {
            lemma_body_depth(evs.deep_view(), t@, i as nat);
        }
        match &evs[i] {
            XmlEvent::Start(tag) => {
                if same(tag.name.as_str(), t.table) || b.grid.depth >= 1 {
                    b.grid = b.grid.start(tag.name.as_str(), &t);
                } else if same(tag.name.as_str(), "w:p") {
                    b = b.open_para(None);
                } else if b.in_para {
                    b = b.note_style(tag);
                }
            },
            XmlEvent::Empty(tag) => {
                if b.in_para && b.grid.depth == 0 {
                    b = b.note_style(tag);
                }
            },
            XmlEvent::End(n) => {
                let closes = same(n.as_str(), "w:p");
                b = b.end(n.as_str(), closes, &t);
            },
            ev => {
                b = b.text(ev);
            },
        }
        i = i + 1;
    }
    b.blocks
}

/// The blocks of an odt body among events, in document order.
pub fn collect_blocks_odt(evs: &Vec<XmlEvent>) -> (r: Vec<Value>)
    ensures
        r.deep_view() == odt_blocks(evs.deep_view()),
{
    let t = TableTags::odt();
    let mut b = Body::new();
    let mut i: usize = 0;
    while i < evs.len()
        invariant
            i <= evs@.len(),
            t@ == odt_tags(),
            b@ == odt_run(evs.deep_view(), t@, i as nat),
        decreases evs@.len() - i,
    {
        assert(evs.deep_view()[i as int] == evs@[i as int].deep_view());
        proof {
            lemma_body_depth(evs.deep_view(), t@, i as nat);
        }
        match &evs[i] {
            XmlEvent::Start(tag) => {
                if same(tag.name.as_str(), t.table) || b.grid.depth >= 1 {
                    b.grid = b.grid.start(tag.name.as_str(), &t);
                } else if same(tag.name.as_str(), "text:h") {
                    let level = match attr(tag, "text:outline-level") {
                        Some(v) => clamp_level(parse_u64(trim_text(v).as_str())),
                        None => clamp_level(None),
                    };
                    b = b.open_para(Some(level));
                } else if same(tag.name.as_str(), t.para) {
                    b = b.open_para(None);
                }
            },
            XmlEvent::Empty(_) => {},
            XmlEvent::End(n) => {
                let closes = same(n.as_str(), "text:h") || same(n.as_str(), t.para);
                b = b.end(n.as_str(), closes, &t);
            },
            ev => {
                b = b.text(ev);
            },
        }
        i = i + 1;
    }
    b.blocks
}

/// The blocks of a docx body.
pub fn extract_blocks_docx(xml: &[u8]) -> (r: Vec<Value>)
    ensures
        r.deep_view() == docx_blocks(xml_items(xml@, true)),
{
    let evs = xml_events(xml, true);
    collect_blocks_docx(&evs)
}

/// The blocks of an odt body.
pub fn extract_blocks_odt(xml: &[u8]) -> (r: Vec<Value>)
    ensures
        r.deep_view() == odt_blocks(xml_items(xml@, true)),
{
    let evs = xml_events(xml, true);
    collect_blocks_odt(&evs)
}

// ── HTML ────────────────────────────────────────────────────────────────────

/// The level of an `h1` to `h6` tag name, in either case.
pub open spec fn html_level(name: Seq<char>) -> Option<u64> {
    if name.len() == 2 && (name[0] == 'h' || name[0] == 'H') && '1' <= name[1] <= '6' {
        Some((name[1] as u64 - '0' as u64) as u64)
    } else {
        None
    }
}

pub fn html_heading_level(name: &str) -> (r: Option<u64>)
    ensures
        r == html_level(name@),
{
    let b = chars_of(name);
    if b.len() == 2 && (b[0] == 'h' || b[0] == 'H') && '1' <= b[1] && b[1] <= '6' {
        Some((b[1] as u32 - 48) as u64)
    } else {
        None
    }
}

/// What has been read of an HTML text.
#[verifier::ext_equal]
pub struct HtmlView {
    pub blocks: Seq<Json>,
    /// Depth of tables, and the open table's rows, row and cell.
    pub in_table: int,
    pub rows: Seq<Json>,
    pub row: Seq<Seq<char>>,
    pub cell: Seq<char>,
    pub in_cell: bool,
    /// Depth of lists, and the open list's kind, items and item.
    pub in_list: int,
    pub ordered: bool,
    pub items: Seq<Json>,
    pub item: Seq<char>,
    pub in_li: bool,
    /// The open paragraph (level 0) or heading and its text.
    pub in_block: bool,
    pub level: u64,
    pub cur: Seq<char>,
}

pub open spec fn empty_html() -> HtmlView {
    HtmlView {
        blocks: Seq::empty(),
        in_table: 0,
        rows: Seq::empty(),
        row: Seq::empty(),
        cell: Seq::empty(),
        in_cell: false,
        in_list: 0,
        ordered: false,
        items: Seq::empty(),
        item: Seq::empty(),
        in_li: false,
        in_block: false,
        level: 0,
        cur: Seq::empty(),
    }
}

pub open spec fn is_cell_name(n: Seq<char>) -> bool {
    n == "td"@ || n == "th"@
}

pub open spec fn is_list_name(n: Seq<char>) -> bool {
    n == "ul"@ || n == "ol"@
}

/// A start tag, its name in lower case.
pub open spec fn html_start(st: HtmlView, n: Seq<char>) -> HtmlView {
    if n == "table"@ {
        if st.in_table == 0 {
            HtmlView { in_table: 1, rows: Seq::empty(), ..st }
        } else {
            HtmlView { in_table: st.in_table + 1, ..st }
        }
    } else if n == "tr"@ && st.in_table >= 1 {
        HtmlView { row: Seq::empty(), ..st }
    } else if is_cell_name(n) && st.in_table >= 1 {
        HtmlView { cell: Seq::empty(), in_cell: true, ..st }
    } else if is_list_name(n) {
        if st.in_list == 0 {
            HtmlView { in_list: 1, ordered: n == "ol"@, items: Seq::empty(), ..st }
        } else {
            HtmlView { in_list: st.in_list + 1, ..st }
        }
    } else if n == "li"@ && st.in_list >= 1 {
        HtmlView { item: Seq::empty(), in_li: true, ..st }
    } else if st.in_table == 0 && st.in_list == 0 && n == "p"@ {
        HtmlView { in_block: true, level: 0, cur: Seq::empty(), ..st }
    } else if st.in_table == 0 && st.in_list == 0 && html_level(n) is Some {
        HtmlView { in_block: true, level: html_level(n)->0, cur: Seq::empty(), ..st }
    } else {
        st
    }
}

pub open spec fn html_text(st: HtmlView, ev: EventView) -> HtmlView {
    if st.in_cell {
        HtmlView { cell: st.cell + event_text(ev), ..st }
    } else if st.in_li {
        HtmlView { item: st.item + event_text(ev), ..st }
    } else if st.in_block {
        HtmlView { cur: st.cur + event_text(ev), ..st }
    } else {
        st
    }
}

/// An end tag, its name in lower case.
pub open spec fn html_end(st: HtmlView, n: Seq<char>) -> HtmlView {
    if is_cell_name(n) && st.in_table >= 1 {
        HtmlView { in_cell: false, row: st.row.push(st.cell), cell: Seq::empty(), ..st }
    } else if n == "tr"@ && st.in_table >= 1 {
        HtmlView { rows: st.rows.push(text_row(st.row)), row: Seq::empty(), ..st }
    } else if n == "table"@ {
        if st.in_table == 1 {
            HtmlView {
                in_table: 0,
                blocks: st.blocks.push(table_block(st.rows)),
                rows: Seq::empty(),
                ..st
            }
        } else {
            HtmlView { in_table: st.in_table - 1, ..st }
        }
    } else if n == "li"@ && st.in_list >= 1 {
        HtmlView {
            in_li: false,
            items: st.items.push(Json::Text(st.item)),
            item: Seq::empty(),
            ..st
        }
    } else if is_list_name(n) {
        if st.in_list == 1 {
            HtmlView {
                in_list: 0,
                blocks: st.blocks.push(list_block(st.ordered, st.items)),
                items: Seq::empty(),
                ..st
            }
        } else {
            HtmlView { in_list: st.in_list - 1, ..st }
        }
    } else if st.in_block && (n == "p"@ || html_level(n) is Some) {
        HtmlView {
            in_block: false,
            blocks: st.blocks.push(
                if st.level == 0 {
                    para_block(squeezed(st.cur))
                } else {
                    heading_block(st.level, squeezed(st.cur))
                },
            ),
            cur: Seq::empty(),
            ..st
        }
    } else {
        st
    }
}

pub open spec fn html_step(st: HtmlView, ev: EventView) -> HtmlView {
    match ev {
        EventView::Start(tag) => html_start(st, lowercase(tag.name)),
        EventView::End(n) => html_end(st, lowercase(n)),
        _ => html_text(st, ev),
    }
}

/// The state after the first `n` events.
pub open spec fn html_run(evs: Seq<EventView>, n: nat) -> HtmlView
    decreases n,
{
    if n == 0 || n > evs.len() {
        empty_html()
    } else {
        html_step(html_run(evs, (n - 1) as nat), evs[n - 1])
    }
}

/// The blocks of an HTML text: `h1` to `h6`, `p`, `ul`/`ol` and `table`, with
/// inline markup flattened to text.
pub open spec fn html_blocks(evs: Seq<EventView>) -> Seq<Json> {
    html_run(evs, evs.len()).blocks
}

pub struct HtmlState {
    pub blocks: Vec<Value>,
    pub in_table: i128,
    pub rows: Vec<Value>,
    pub row: Vec<String>,
    pub cell: String,
    pub in_cell: bool,
    pub in_list: i128,
    pub ordered: bool,
    pub items: Vec<Value>,
    pub item: String,
    pub in_li: bool,
    pub in_block: bool,
    pub level: u64,
    pub cur: String,
}

impl View for HtmlState {
    type V = HtmlView;

    open spec fn view(&self) -> HtmlView {
        HtmlView {
            blocks: self.blocks.deep_view(),
            in_table: self.in_table as int,
            rows: self.rows.deep_view(),
            row: self.row.deep_view(),
            cell: self.cell@,
            in_cell: self.in_cell,
            in_list: self.in_list as int,
            ordered: self.ordered,
            items: self.items.deep_view(),
            item: self.item@,
            in_li: self.in_li,
            in_block: self.in_block,
            level: self.level,
            cur: self.cur@,
        }
    }
}

impl HtmlState {
    fn new() -> (r: HtmlState)
        ensures
            r@ == empty_html(),
    {
        let r = HtmlState {
            blocks: Vec::new(),
            in_table: 0,
            rows: Vec::new(),
            row: Vec::new(),
            cell: String::new(),
            in_cell: false,
            in_list: 0,
            ordered: false,
            items: Vec::new(),
            item: String::new(),
            in_li: false,
            in_block: false,
            level: 0,
            cur: String::new(),
        };
        assert(r@ =~= empty_html());
        r
    }

    fn start(self, n: &str) -> (r: HtmlState)
        requires
            self.in_table < 0x1_0000_0000_0000_0000_0000,
            self.in_list < 0x1_0000_0000_0000_0000_0000,
        ensures
            r@ == html_start(self@, n@),
    {
        let ghost before = self@;
        let mut st = self;
        let level = html_heading_level(n);
        if same(n, "table") {
            st.in_table = st.in_table + 1;
            if st.in_table == 1 {
                st.rows = Vec::new();
            }
        } else if same(n, "tr") && st.in_table >= 1 {
            st.row = Vec::new();
        } else if (same(n, "td") || same(n, "th")) && st.in_table >= 1 {
            st.cell = String::new();
            st.in_cell = true;
        } else if same(n, "ul") || same(n, "ol") {
            st.in_list = st.in_list + 1;
            if st.in_list == 1 {
                st.ordered = same(n, "ol");
                st.items = Vec::new();
            }
        } else if same(n, "li") && st.in_list >= 1 {
            st.item = String::new();
            st.in_li = true;
        } else if st.in_table == 0 && st.in_list == 0 {
            if same(n, "p") {
                st.in_block = true;
                st.level = 0;
                st.cur = String::new();
            } else {
                match level {
                    Some(lv) => {
                        st.in_block = true;
                        st.level = lv;
                        st.cur = String::new();
                    },
                    None => {},
                }
            }
        }
        assert(st@ =~= html_start(before, n@));
        st
    }

    fn text(self, ev: &XmlEvent) -> (r: HtmlState)
        ensures
            r@ == html_text(self@, ev.deep_view()),
    {
        let mut st = self;
        if st.in_cell {
            push_event_text(&mut st.cell, ev);
        } else if st.in_li {
            push_event_text(&mut st.item, ev);
        } else if st.in_block {
            push_event_text(&mut st.cur, ev);
        }
        st
    }

    fn end(self, n: &str) -> (r: HtmlState)
        requires
            self.in_table > -0x1_0000_0000_0000_0000_0000,
            self.in_list > -0x1_0000_0000_0000_0000_0000,
        ensures
            r@ == html_end(self@, n@),
    {
        let ghost before = self@;
        let mut st = self;
        if (same(n, "td") || same(n, "th")) && st.in_table >= 1 {
            st.in_cell = false;
            push_deep(&mut st.row, st.cell);
            st.cell = String::new();
        } else if same(n, "tr") && st.in_table >= 1 {
            push_deep(&mut st.rows, make_text_row(st.row));
            st.row = Vec::new();
        } else if same(n, "table") {
            st.in_table = st.in_table - 1;
            if st.in_table == 0 {
                push_deep(&mut st.blocks, make_table(st.rows));
                st.rows = Vec::new();
            }
        } else if same(n, "li") && st.in_list >= 1 {
            st.in_li = false;
            push_deep(&mut st.items, Value::Text(st.item));
            st.item = String::new();
        } else if same(n, "ul") || same(n, "ol") {
            st.in_list = st.in_list - 1;
            if st.in_list == 0 {
                push_deep(&mut st.blocks, make_list(st.ordered, st.items));
                st.items = Vec::new();
            }
        } else if st.in_block && (same(n, "p") || html_heading_level(n).is_some()) {
            st.in_block = false;
            let text = squeeze(st.cur.as_str());
            if st.level == 0 {
                push_deep(&mut st.blocks, make_para(text.as_str()));
            } else {
                push_deep(&mut st.blocks, make_heading(st.level, text.as_str()));
            }
            st.cur = String::new();
        }
        assert(st@ =~= html_end(before, n@));
        st
    }
}

proof fn lemma_html_depth(evs: Seq<EventView>, n: nat)
    ensures
        -(n as int) <= html_run(evs, n).in_table <= n,
        -(n as int) <= html_run(evs, n).in_list <= n,
    decreases n,
{
    if n > 0 && n <= evs.len() {
        lemma_html_depth(evs, (n - 1) as nat);
    }
}

/// The blocks of an HTML text among events.
pub fn collect_html_blocks(evs: &Vec<XmlEvent>) -> (r: Vec<Value>)
    ensures
        r.deep_view() == html_blocks(evs.deep_view()),
{
    let mut st = HtmlState::new();
    let mut i: usize = 0;
    while i < evs.len()
        invariant
            i <= evs@.len(),
            st@ == html_run(evs.deep_view(), i as nat),
        decreases evs@.len() - i,
    {
        assert(evs.deep_view()[i as int] == evs@[i as int].deep_view());
        proof {
            lemma_html_depth(evs.deep_view(), i as nat);
        }
        match &evs[i] {
            XmlEvent::Start(tag) => {
                let n = to_lowercase(tag.name.as_str());
                st = st.start(n.as_str());
            },
            XmlEvent::End(name) => {
                let n = to_lowercase(name.as_str());
                st = st.end(n.as_str());
            },
            ev => {
                st = st.text(ev);
            },
        }
        i = i + 1;
    }
    st.blocks
}

/// The blocks of an HTML text; end tags need not match their start tags.
pub fn parse_html_blocks(xml: &[u8]) -> (r: Vec<Value>)
    ensures
        r.deep_view() == html_blocks(xml_items(xml@, false)),
{
    let evs = xml_events(xml, false);
    collect_html_blocks(&evs)
}

// ── what HTML says ──────────────────────────────────────────────────────────

/// Sequences one behind the other.
pub open spec fn run_together<T>(parts: Seq<Seq<T>>) -> Seq<T>
    decreases parts.len(),
{
    if parts.len() == 0 {
        Seq::empty()
    } else {
        run_together(parts.drop_last()) + parts.last()
    }
}

/// An element without attributes.
pub open spec fn element(n: Seq<char>, inside: Seq<EventView>) -> Seq<EventView> {
    seq![EventView::Start(TagView { name: n, attrs: Seq::empty() })] + inside + seq![
        EventView::End(n),
    ]
}

/// Whether a name is that of an element that makes blocks.
pub open spec fn makes_html_blocks(n: Seq<char>) -> bool {
    ||| n == "table"@
    ||| n == "tr"@
    ||| n == "th"@
    ||| n == "td"@
    ||| n == "ul"@
    ||| n == "ol"@
    ||| n == "li"@
    ||| n == "p"@
    ||| n.len() == 2 && (n[0] == 'h' || n[0] == 'H') && '1' <= n[1] <= '6'
}

/// Whether events are text and markup that makes no blocks.
pub open spec fn is_html_inline(evs: Seq<EventView>) -> bool {
    forall|i: int|
        0 <= i < evs.len() ==> match #[trigger] evs[i] {
            EventView::Start(t) => !makes_html_blocks(lowercase(t.name)),
            EventView::End(n) => !makes_html_blocks(lowercase(n)),
            _ => true,
        }
}

/// A block of an HTML text: a paragraph, a heading with its level, a list, numbered or not,
/// or the rows of a table, with cells that may be headers.
pub enum HtmlItem {
    Para(Seq<EventView>),
    Heading(u64, Seq<EventView>),
    List(bool, Seq<Seq<EventView>>),
    Table(Seq<Seq<(bool, Seq<EventView>)>>),
}

pub open spec fn is_html_item(item: HtmlItem) -> bool {
    match item {
        HtmlItem::Para(x) => is_html_inline(x),
        HtmlItem::Heading(level, x) => 1 <= level <= 6 && is_html_inline(x),
        HtmlItem::List(_, items) => forall|i: int|
            0 <= i < items.len() ==> is_html_inline(#[trigger] items[i]),
        HtmlItem::Table(rows) => forall|i: int|
            0 <= i < rows.len() ==> is_html_row(#[trigger] rows[i]),
    }
}

pub open spec fn is_html_row(cells: Seq<(bool, Seq<EventView>)>) -> bool {
    forall|j: int| 0 <= j < cells.len() ==> is_html_inline((#[trigger] cells[j]).1)
}

pub open spec fn heading_name(level: u64) -> Seq<char> {
    if level == 1 {
        "h1"@
    } else if level == 2 {
        "h2"@
    } else if level == 3 {
        "h3"@
    } else if level == 4 {
        "h4"@
    } else if level == 5 {
        "h5"@
    } else {
        "h6"@
    }
}

pub open spec fn list_events(items: Seq<Seq<EventView>>) -> Seq<EventView> {
    run_together(Seq::new(items.len(), |i: int| element("li"@, items[i])))
}

pub open spec fn cell_events(cell: (bool, Seq<EventView>)) -> Seq<EventView> {
    element(
        if cell.0 {
            "th"@
        } else {
            "td"@
        },
        cell.1,
    )
}

pub open spec fn row_events(cells: Seq<(bool, Seq<EventView>)>) -> Seq<EventView> {
    element("tr"@, run_together(Seq::new(cells.len(), |i: int| cell_events(cells[i]))))
}

/// A block as it is written.
pub open spec fn html_item_events(item: HtmlItem) -> Seq<EventView> {
    match item {
        HtmlItem::Para(x) => element("p"@, x),
        HtmlItem::Heading(level, x) => element(heading_name(level), x),
        HtmlItem::List(ordered, items) => element(
            if ordered {
                "ol"@
            } else {
                "ul"@
            },
            list_events(items),
        ),
        HtmlItem::Table(rows) => element(
            "table"@,
            run_together(Seq::new(rows.len(), |i: int| row_events(rows[i]))),
        ),
    }
}

/// What a block says: a paragraph and a heading with one space between words, a list and a
/// table with their texts as they are.
pub open spec fn html_item_block(item: HtmlItem) -> Json {
    match item {
        HtmlItem::Para(x) => Json::Object(
            seq![("kind"@, Json::Text("para"@)), ("text"@, Json::Text(squeezed(said(x))))],
        ),
        HtmlItem::Heading(level, x) => Json::Object(
            seq![
                ("kind"@, Json::Text("heading"@)),
                ("level"@, Json::Number(Num::Unsigned(level))),
                ("text"@, Json::Text(squeezed(said(x)))),
            ],
        ),
        HtmlItem::List(ordered, items) => Json::Object(
            seq![
                ("kind"@, Json::Text("list"@)),
                ("ordered"@, Json::Bool(ordered)),
                (
                    "items"@,
                    Json::Array(Seq::new(items.len(), |i: int| Json::Text(said(items[i])))),
                ),
            ],
        ),
        HtmlItem::Table(rows) => Json::Object(
            seq![
                ("kind"@, Json::Text("table"@)),
                (
                    "rows"@,
                    Json::Array(
                        Seq::new(
                            rows.len(),
                            |i: int|
                                Json::Array(
                                    Seq::new(
                                        rows[i].len(),
                                        |j: int| Json::Text(said(rows[i][j].1)),
                                    ),
                                ),
                        ),
                    ),
                ),
            ],
        ),
    }
}

/// The state after events, from another one on.
spec fn html_on(st: HtmlView, evs: Seq<EventView>) -> HtmlView
    decreases evs.len(),
{
    if evs.len() == 0 {
        st
    } else {
        html_step(html_on(st, evs.drop_last()), evs.last())
    }
}

proof fn lemma_html_concat(st: HtmlView, a: Seq<EventView>, b: Seq<EventView>)
    ensures
        html_on(st, a + b) == html_on(html_on(st, a), b),
    decreases b.len(),
{
    if b.len() == 0 {
        assert(a + b =~= a);
    } else {
        lemma_html_concat(st, a, b.drop_last());
        assert((a + b).drop_last() =~= a + b.drop_last());
        assert((a + b).last() == b.last());
    }
}

proof fn lemma_html_one(st: HtmlView, ev: EventView)
    ensures
        html_on(st, seq![ev]) == html_step(st, ev),
{
    assert(seq![ev].drop_last() =~= Seq::<EventView>::empty());
    assert(html_on(st, seq![ev].drop_last()) == st);
}

proof fn lemma_html_run(evs: Seq<EventView>, n: nat)
    requires
        n <= evs.len(),
    ensures
        html_run(evs, n) == html_on(empty_html(), evs.take(n as int)),
    decreases n,
{
    if n > 0 {
        lemma_html_run(evs, (n - 1) as nat);
        assert(evs.take(n as int).drop_last() =~= evs.take(n - 1));
    } else {
        assert(evs.take(0) =~= Seq::<EventView>::empty());
    }
}

/// An element: its start tag, what is inside, and its end tag.
proof fn lemma_html_element(st: HtmlView, n: Seq<char>, inside: Seq<EventView>)
    requires
        lowercase(n) == n,
    ensures
        html_on(st, element(n, inside)) == html_end(html_on(html_start(st, n), inside), n),
{
    let open = EventView::Start(TagView { name: n, attrs: Seq::empty() });
    let close = EventView::End(n);
    lemma_html_one(st, open);
    lemma_html_concat(st, seq![open], inside);
    lemma_html_concat(st, seq![open] + inside, seq![close]);
    lemma_html_one(html_on(st, seq![open] + inside), close);
}

proof fn lemma_html_inline(st: HtmlView, evs: Seq<EventView>)
    requires
        is_html_inline(evs),
    ensures
        html_on(st, evs) == (if st.in_cell {
            HtmlView { cell: st.cell + said(evs), ..st }
        } else if st.in_li {
            HtmlView { item: st.item + said(evs), ..st }
        } else if st.in_block {
            HtmlView { cur: st.cur + said(evs), ..st }
        } else {
            st
        }),
    decreases evs.len(),
{
    if evs.len() == 0 {
        assert(st.cell + said(evs) =~= st.cell);
        assert(st.item + said(evs) =~= st.item);
        assert(st.cur + said(evs) =~= st.cur);
    } else {
        let front = evs.drop_last();
        let ev = evs.last();
        assert forall|i: int| 0 <= i < front.len() implies match #[trigger] front[i] {
            EventView::Start(t) => !makes_html_blocks(lowercase(t.name)),
            EventView::End(n) => !makes_html_blocks(lowercase(n)),
            _ => true,
        } by {
            assert(front[i] == evs[i]);
        }
        lemma_html_inline(st, front);
        assert(evs[evs.len() - 1] == ev);
        let mid = html_on(st, front);
        match ev {
            EventView::Start(t) => {
                assert(html_step(mid, ev) == mid);
                assert(said_by(ev) =~= Seq::<char>::empty());
            },
            EventView::End(n) => {
                assert(html_step(mid, ev) == mid);
                assert(said_by(ev) =~= Seq::<char>::empty());
            },
            _ => {
                events_say_their_text(ev);
            },
        }
        assert(st.cell + said(front) + said_by(ev) =~= st.cell + said(evs));
        assert(st.item + said(front) + said_by(ev) =~= st.item + said(evs));
        assert(st.cur + said(front) + said_by(ev) =~= st.cur + said(evs));
    }
}

proof fn lemma_small(n: Seq<char>)
    requires
        forall|i: int|
            0 <= i < n.len() ==> 'a' <= #[trigger] n[i] <= 'z' || '0' <= n[i] <= '9',
    ensures
        lowercase(n) == n,
{
    assert forall|i: int| 0 <= i < n.len() implies is_ascii(#[trigger] n[i]) by {
        assert('a' <= n[i] <= 'z' || '0' <= n[i] <= '9');
    }
    assert(lower(n) =~= n);
}

proof fn lemma_html_names()
    ensures
        lowercase("table"@) == "table"@ && "table"@.len() == 5,
        lowercase("tr"@) == "tr"@ && "tr"@.len() == 2 && "tr"@[0] == 't' && "tr"@[1] == 'r',
        lowercase("th"@) == "th"@ && "th"@.len() == 2 && "th"@[0] == 't' && "th"@[1] == 'h',
        lowercase("td"@) == "td"@ && "td"@.len() == 2 && "td"@[0] == 't' && "td"@[1] == 'd',
        lowercase("ul"@) == "ul"@ && "ul"@.len() == 2 && "ul"@[0] == 'u' && "ul"@[1] == 'l',
        lowercase("ol"@) == "ol"@ && "ol"@.len() == 2 && "ol"@[0] == 'o' && "ol"@[1] == 'l',
        lowercase("li"@) == "li"@ && "li"@.len() == 2 && "li"@[0] == 'l' && "li"@[1] == 'i',
        lowercase("p"@) == "p"@ && "p"@.len() == 1,
{
    reveal_strlit("table");
    reveal_strlit("tr");
    reveal_strlit("th");
    reveal_strlit("td");
    reveal_strlit("ul");
    reveal_strlit("ol");
    reveal_strlit("li");
    reveal_strlit("p");
    lemma_small("table"@);
    lemma_small("tr"@);
    lemma_small("th"@);
    lemma_small("td"@);
    lemma_small("ul"@);
    lemma_small("ol"@);
    lemma_small("li"@);
    lemma_small("p"@);
}

proof fn lemma_heading_name(level: u64)
    requires
        1 <= level <= 6,
    ensures
        lowercase(heading_name(level)) == heading_name(level),
        heading_name(level).len() == 2,
        heading_name(level)[0] == 'h',
        html_level(heading_name(level)) == Some(level),
{
    reveal_strlit("h1");
    reveal_strlit("h2");
    reveal_strlit("h3");
    reveal_strlit("h4");
    reveal_strlit("h5");
    reveal_strlit("h6");
    lemma_small(heading_name(level));
}

/// Whether a state has nothing open but what is told.
spec fn is_idle(st: HtmlView, in_table: int, in_list: int) -> bool {
    st.in_table == in_table && st.in_list == in_list && !st.in_cell && !st.in_li && !st.in_block
}

proof fn lemma_html_cell(st: HtmlView, cell: (bool, Seq<EventView>))
    requires
        is_idle(st, 1, 0),
        is_html_inline(cell.1),
    ensures
        ({
            let after = html_on(st, cell_events(cell));
            is_idle(after, 1, 0) && after.blocks == st.blocks && after.rows == st.rows && after.row
                == st.row.push(said(cell.1))
        }),
{
    lemma_html_names();
    let n = if cell.0 {
        "th"@
    } else {
        "td"@
    };
    lemma_html_element(st, n, cell.1);
    let open = html_start(st, n);
    assert(open == (HtmlView { cell: Seq::empty(), in_cell: true, ..st }));
    lemma_html_inline(open, cell.1);
    assert(Seq::<char>::empty() + said(cell.1) =~= said(cell.1));
}

proof fn lemma_html_cells(st: HtmlView, cells: Seq<(bool, Seq<EventView>)>)
    requires
        is_idle(st, 1, 0),
        st.row.len() == 0,
        forall|j: int| 0 <= j < cells.len() ==> is_html_inline((#[trigger] cells[j]).1),
    ensures
        ({
            let after = html_on(
                st,
                run_together(Seq::new(cells.len(), |i: int| cell_events(cells[i]))),
            );
            is_idle(after, 1, 0) && after.blocks == st.blocks && after.rows == st.rows && after.row
                == Seq::new(cells.len(), |j: int| said(cells[j].1))
        }),
    decreases cells.len(),
{
    let parts = Seq::new(cells.len(), |i: int| cell_events(cells[i]));
    if cells.len() == 0 {
        assert(st.row =~= Seq::new(cells.len(), |j: int| said(cells[j].1)));
    } else {
        let front = cells.drop_last();
        assert forall|j: int| 0 <= j < front.len() implies is_html_inline(
            (#[trigger] front[j]).1,
        ) by {
            assert(front[j] == cells[j]);
        }
        lemma_html_cells(st, front);
        assert(parts.drop_last() =~= Seq::new(front.len(), |i: int| cell_events(front[i])));
        let last = cells[cells.len() - 1];
        assert(parts.last() == cell_events(last));
        lemma_html_concat(st, run_together(parts.drop_last()), parts.last());
        lemma_html_cell(html_on(st, run_together(parts.drop_last())), last);
        assert(Seq::new(front.len(), |j: int| said(front[j].1)).push(said(last.1)) =~= Seq::new(
            cells.len(),
            |j: int| said(cells[j].1),
        ));
    }
}

spec fn row_of_texts(cells: Seq<(bool, Seq<EventView>)>) -> Json {
    Json::Array(Seq::new(cells.len(), |j: int| Json::Text(said(cells[j].1))))
}

proof fn lemma_html_row(st: HtmlView, cells: Seq<(bool, Seq<EventView>)>)
    requires
        is_idle(st, 1, 0),
        forall|j: int| 0 <= j < cells.len() ==> is_html_inline((#[trigger] cells[j]).1),
    ensures
        ({
            let after = html_on(st, row_events(cells));
            is_idle(after, 1, 0) && after.blocks == st.blocks && after.rows == st.rows.push(
                row_of_texts(cells),
            )
        }),
{
    lemma_html_names();
    let inside = run_together(Seq::new(cells.len(), |i: int| cell_events(cells[i])));
    lemma_html_element(st, "tr"@, inside);
    let open = html_start(st, "tr"@);
    assert(open == (HtmlView { row: Seq::empty(), ..st }));
    lemma_html_cells(open, cells);
    let full = html_on(open, inside);
    assert(text_row(full.row)->Array_0 =~= row_of_texts(cells)->Array_0);
}

proof fn lemma_html_rows(st: HtmlView, rows: Seq<Seq<(bool, Seq<EventView>)>>)
    requires
        is_idle(st, 1, 0),
        st.rows.len() == 0,
        forall|i: int| 0 <= i < rows.len() ==> is_html_row(#[trigger] rows[i]),
    ensures
        ({
            let after = html_on(
                st,
                run_together(Seq::new(rows.len(), |i: int| row_events(rows[i]))),
            );
            is_idle(after, 1, 0) && after.blocks == st.blocks && after.rows == Seq::new(
                rows.len(),
                |i: int| row_of_texts(rows[i]),
            )
        }),
    decreases rows.len(),
{
    let parts = Seq::new(rows.len(), |i: int| row_events(rows[i]));
    if rows.len() == 0 {
        assert(st.rows =~= Seq::new(rows.len(), |i: int| row_of_texts(rows[i])));
    } else {
        let front = rows.drop_last();
        assert forall|i: int| 0 <= i < front.len() implies is_html_row(#[trigger] front[i]) by {
            assert(front[i] == rows[i]);
        }
        lemma_html_rows(st, front);
        assert(parts.drop_last() =~= Seq::new(front.len(), |i: int| row_events(front[i])));
        let last = rows[rows.len() - 1];
        assert(parts.last() == row_events(last));
        assert(is_html_row(last));
        lemma_html_concat(st, run_together(parts.drop_last()), parts.last());
        lemma_html_row(html_on(st, run_together(parts.drop_last())), last);
        assert(Seq::new(front.len(), |i: int| row_of_texts(front[i])).push(row_of_texts(last))
            =~= Seq::new(rows.len(), |i: int| row_of_texts(rows[i])));
    }
}

proof fn lemma_html_items(st: HtmlView, items: Seq<Seq<EventView>>)
    requires
        is_idle(st, 0, 1),
        st.items.len() == 0,
        forall|i: int| 0 <= i < items.len() ==> is_html_inline(#[trigger] items[i]),
    ensures
        ({
            let after = html_on(st, list_events(items));
            is_idle(after, 0, 1) && after.blocks == st.blocks && after.ordered == st.ordered
                && after.items == Seq::new(items.len(), |i: int| Json::Text(said(items[i])))
        }),
    decreases items.len(),
{
    let parts = Seq::new(items.len(), |i: int| element("li"@, items[i]));
    if items.len() == 0 {
        assert(st.items =~= Seq::new(items.len(), |i: int| Json::Text(said(items[i]))));
    } else {
        let front = items.drop_last();
        let last = items[items.len() - 1];
        assert forall|i: int| 0 <= i < front.len() implies is_html_inline(#[trigger] front[i]) by {
            assert(front[i] == items[i]);
        }
        lemma_html_items(st, front);
        assert(parts.drop_last() =~= Seq::new(front.len(), |i: int| element("li"@, front[i])));
        assert(parts.last() == element("li"@, last));
        lemma_html_concat(st, run_together(parts.drop_last()), parts.last());
        let mid = html_on(st, run_together(parts.drop_last()));
        lemma_html_names();
        lemma_html_element(mid, "li"@, last);
        let open = html_start(mid, "li"@);
        assert(open == (HtmlView { item: Seq::empty(), in_li: true, ..mid }));
        lemma_html_inline(open, last);
        assert(Seq::<char>::empty() + said(last) =~= said(last));
        assert(Seq::new(front.len(), |i: int| Json::Text(said(front[i]))).push(
            Json::Text(said(last)),
        ) =~= Seq::new(items.len(), |i: int| Json::Text(said(items[i]))));
    }
}

proof fn lemma_html_item(st: HtmlView, item: HtmlItem)
    requires
        is_idle(st, 0, 0),
        is_html_item(item),
    ensures
        ({
            let after = html_on(st, html_item_events(item));
            is_idle(after, 0, 0) && after.blocks == st.blocks.push(html_item_block(item))
        }),
{
    lemma_html_names();
    match item {
        HtmlItem::Para(x) => {
            lemma_html_element(st, "p"@, x);
            let open = html_start(st, "p"@);
            assert(open == (HtmlView { in_block: true, level: 0, cur: Seq::empty(), ..st }));
            lemma_html_inline(open, x);
            assert(Seq::<char>::empty() + said(x) =~= said(x));
        },
        HtmlItem::Heading(level, x) => {
            let n = heading_name(level);
            lemma_heading_name(level);
            lemma_html_element(st, n, x);
            let open = html_start(st, n);
            assert(open == (HtmlView { in_block: true, level, cur: Seq::empty(), ..st }));
            lemma_html_inline(open, x);
            assert(Seq::<char>::empty() + said(x) =~= said(x));
        },
        HtmlItem::List(ordered, items) => {
            let n = if ordered {
                "ol"@
            } else {
                "ul"@
            };
            lemma_html_element(st, n, list_events(items));
            let open = html_start(st, n);
            assert(open == (HtmlView { in_list: 1, ordered, items: Seq::empty(), ..st }));
            lemma_html_items(open, items);
        },
        HtmlItem::Table(rows) => {
            let inside = run_together(Seq::new(rows.len(), |i: int| row_events(rows[i])));
            lemma_html_element(st, "table"@, inside);
            let open = html_start(st, "table"@);
            assert(open == (HtmlView { in_table: 1, rows: Seq::empty(), ..st }));
            lemma_html_rows(open, rows);
            assert(Seq::new(rows.len(), |i: int| row_of_texts(rows[i])) =~= Seq::new(
                rows.len(),
                |i: int|
                    Json::Array(
                        Seq::new(rows[i].len(), |j: int| Json::Text(said(rows[i][j].1))),
                    ),
            ));
        },
    }
}

/// An HTML text: blocks, each with what stands before it and makes none.
pub open spec fn html_document(items: Seq<(Seq<EventView>, HtmlItem)>) -> Seq<EventView> {
    run_together(Seq::new(items.len(), |i: int| items[i].0 + html_item_events(items[i].1)))
}

proof fn lemma_html_document(items: Seq<(Seq<EventView>, HtmlItem)>)
    requires
        forall|i: int|
            0 <= i < items.len() ==> is_html_inline((#[trigger] items[i]).0) && is_html_item(
                items[i].1,
            ),
    ensures
        ({
            let after = html_on(empty_html(), html_document(items));
            is_idle(after, 0, 0) && after.blocks == Seq::new(
                items.len(),
                |i: int| html_item_block(items[i].1),
            )
        }),
    decreases items.len(),
{
    let parts = Seq::new(items.len(), |i: int| items[i].0 + html_item_events(items[i].1));
    if items.len() == 0 {
        assert(empty_html().blocks =~= Seq::new(
            items.len(),
            |i: int| html_item_block(items[i].1),
        ));
    } else {
        let front = items.drop_last();
        let last = items[items.len() - 1];
        assert forall|i: int| 0 <= i < front.len() implies is_html_inline((#[trigger] front[i]).0)
            && is_html_item(front[i].1) by {
            assert(front[i] == items[i]);
        }
        lemma_html_document(front);
        assert(parts.drop_last() =~= Seq::new(
            front.len(),
            |i: int| front[i].0 + html_item_events(front[i].1),
        ));
        let mid = html_on(empty_html(), html_document(front));
        assert(parts.last() == last.0 + html_item_events(last.1));
        lemma_html_concat(empty_html(), html_document(front), parts.last());
        lemma_html_concat(mid, last.0, html_item_events(last.1));
        lemma_html_inline(mid, last.0);
        lemma_html_item(mid, last.1);
        assert(Seq::new(front.len(), |i: int| html_item_block(front[i].1)).push(
            html_item_block(last.1),
        ) =~= Seq::new(items.len(), |i: int| html_item_block(items[i].1)));
    }
}

/// An HTML text gives one block for each of its paragraphs, headings, lists and tables, in
/// order, with what they say: a heading its level, a list its items and whether they are
/// numbered, and a table each cell of each row, be it a header cell or another.
pub proof fn html_gives_its_blocks(items: Seq<(Seq<EventView>, HtmlItem)>)
    requires
        forall|i: int|
            0 <= i < items.len() ==> is_html_inline((#[trigger] items[i]).0) && is_html_item(
                items[i].1,
            ),
    ensures
        html_blocks(html_document(items)) == Seq::new(
            items.len(),
            |i: int| html_item_block(items[i].1),
        ),
{
    let evs = html_document(items);
    lemma_html_document(items);
    lemma_html_run(evs, evs.len());
    assert(evs.take(evs.len() as int) =~= evs);
}

/// Whether events are the same but for attributes and for how tag names are spelled in large
/// and small letters.
pub open spec fn same_but_spelling(a: Seq<EventView>, b: Seq<EventView>) -> bool {
    a.len() == b.len() && forall|i: int|
        0 <= i < a.len() ==> match (#[trigger] a[i], b[i]) {
            (EventView::Start(s), EventView::Start(t)) => lowercase(s.name) == lowercase(t.name),
            (EventView::End(m), EventView::End(n)) => lowercase(m) == lowercase(n),
            (EventView::Start(_), _) => false,
            (EventView::End(_), _) => false,
            _ => a[i] == b[i],
        }
}

/// HTML is read alike however tag names are spelled and whatever attributes tags have.
pub proof fn html_spelling_does_not_matter(a: Seq<EventView>, b: Seq<EventView>)
    requires
        same_but_spelling(a, b),
    ensures
        html_blocks(a) == html_blocks(b),
{
    lemma_same_html(a, b, a.len());
}

proof fn lemma_same_html(a: Seq<EventView>, b: Seq<EventView>, n: nat)
    requires
        same_but_spelling(a, b),
        n <= a.len(),
    ensures
        html_run(a, n) == html_run(b, n),
    decreases n,
{
    if n > 0 {
        lemma_same_html(a, b, (n - 1) as nat);
        let i = n - 1;
        match (a[i], b[i]) {
            (EventView::Start(s), EventView::Start(t)) => {},
            _ => {},
        }
    }
}

// ── what word-processor files say ───────────────────────────────────────────

/// A block of a document: a paragraph, a heading with its level, or the rows of a table, each
/// cell with its paragraphs.
pub enum DocItem {
    Para(Seq<EventView>),
    Heading(u64, Seq<EventView>),
    Table(Seq<Seq<Seq<Seq<EventView>>>>),
}

/// Whether a name has no meaning of its own in a body.
pub open spec fn is_doc_inline_name(n: Seq<char>, docx: bool) -> bool {
    if docx {
        n != "w:tbl"@ && n != "w:tr"@ && n != "w:tc"@ && n != "w:p"@ && n != "w:pStyle"@
    } else {
        n != "table:table"@ && n != "table:table-row"@ && n != "table:table-cell"@ && n
            != "text:p"@ && n != "text:h"@
    }
}

/// Whether events are text and markup that makes no blocks.
pub open spec fn is_doc_inline(evs: Seq<EventView>, docx: bool) -> bool {
    forall|i: int|
        0 <= i < evs.len() ==> match #[trigger] evs[i] {
            EventView::Start(t) => is_doc_inline_name(t.name, docx),
            EventView::Empty(t) => is_doc_inline_name(t.name, docx),
            EventView::End(n) => is_doc_inline_name(n, docx),
            _ => true,
        }
}

/// Whether the paragraphs of a cell are inline and say something.
pub open spec fn is_doc_cell(paras: Seq<Seq<EventView>>, docx: bool) -> bool {
    forall|i: int|
        0 <= i < paras.len() ==> is_doc_inline(#[trigger] paras[i], docx) && said(paras[i]).len()
            > 0
}

pub open spec fn is_doc_row(cells: Seq<Seq<Seq<EventView>>>, docx: bool) -> bool {
    forall|i: int| 0 <= i < cells.len() ==> is_doc_cell(#[trigger] cells[i], docx)
}

pub open spec fn is_doc_item(item: DocItem, docx: bool) -> bool {
    match item {
        DocItem::Para(x) => is_doc_inline(x, docx),
        DocItem::Heading(level, x) => 1 <= level <= 9 && is_doc_inline(x, docx),
        DocItem::Table(rows) => forall|i: int|
            0 <= i < rows.len() ==> is_doc_row(#[trigger] rows[i], docx),
    }
}

pub open spec fn doc_cell_events(paras: Seq<Seq<EventView>>, docx: bool) -> Seq<EventView> {
    let para = if docx {
        "w:p"@
    } else {
        "text:p"@
    };
    element(
        if docx {
            "w:tc"@
        } else {
            "table:table-cell"@
        },
        run_together(Seq::new(paras.len(), |i: int| element(para, paras[i]))),
    )
}

pub open spec fn doc_row_events(cells: Seq<Seq<Seq<EventView>>>, docx: bool) -> Seq<EventView> {
    element(
        if docx {
            "w:tr"@
        } else {
            "table:table-row"@
        },
        run_together(Seq::new(cells.len(), |i: int| doc_cell_events(cells[i], docx))),
    )
}

/// A tag with one attribute.
pub open spec fn tag_with(n: Seq<char>, key: Seq<char>, value: Seq<char>) -> TagView {
    TagView { name: n, attrs: seq![AttrView { key, raw: value, value: Some(value) }] }
}

/// A block as it is written: a heading of a docx file has a paragraph style, and one of an
/// odt file an outline level.
pub open spec fn doc_item_events(item: DocItem, docx: bool) -> Seq<EventView> {
    match item {
        DocItem::Para(x) => element(
            if docx {
                "w:p"@
            } else {
                "text:p"@
            },
            x,
        ),
        DocItem::Heading(level, x) => if docx {
            element(
                "w:p"@,
                seq![
                    EventView::Empty(
                        tag_with("w:pStyle"@, "w:val"@, "Heading"@ + decimal(level as nat)),
                    ),
                ] + x,
            )
        } else {
            seq![
                EventView::Start(
                    tag_with("text:h"@, "text:outline-level"@, decimal(level as nat)),
                ),
            ] + x + seq![EventView::End("text:h"@)]
        },
        DocItem::Table(rows) => element(
            if docx {
                "w:tbl"@
            } else {
                "table:table"@
            },
            run_together(Seq::new(rows.len(), |i: int| doc_row_events(rows[i], docx))),
        ),
    }
}

/// The text of a cell: that of its paragraphs, each on a line.
pub open spec fn doc_cell_text(paras: Seq<Seq<EventView>>) -> Seq<char> {
    join(Seq::new(paras.len(), |i: int| said(paras[i])), "\n"@)
}

pub open spec fn doc_row_texts(cells: Seq<Seq<Seq<EventView>>>) -> Json {
    Json::Array(Seq::new(cells.len(), |j: int| Json::Text(doc_cell_text(cells[j]))))
}

/// What a block says.
pub open spec fn doc_item_block(item: DocItem) -> Json {
    match item {
        DocItem::Para(x) => Json::Object(
            seq![("kind"@, Json::Text("para"@)), ("text"@, Json::Text(said(x)))],
        ),
        DocItem::Heading(level, x) => Json::Object(
            seq![
                ("kind"@, Json::Text("heading"@)),
                ("level"@, Json::Number(Num::Unsigned(level))),
                ("text"@, Json::Text(said(x))),
            ],
        ),
        DocItem::Table(rows) => Json::Object(
            seq![
                ("kind"@, Json::Text("table"@)),
                ("rows"@, Json::Array(Seq::new(rows.len(), |i: int| doc_row_texts(rows[i])))),
            ],
        ),
    }
}

spec fn body_step(docx: bool, st: BodyView, ev: EventView) -> BodyView {
    if docx {
        docx_step(st, ev, docx_tags())
    } else {
        odt_step(st, ev, odt_tags())
    }
}

/// The state after events, from another one on.
spec fn body_on(docx: bool, st: BodyView, evs: Seq<EventView>) -> BodyView
    decreases evs.len(),
{
    if evs.len() == 0 {
        st
    } else {
        body_step(docx, body_on(docx, st, evs.drop_last()), evs.last())
    }
}

proof fn lemma_body_concat(docx: bool, st: BodyView, a: Seq<EventView>, b: Seq<EventView>)
    ensures
        body_on(docx, st, a + b) == body_on(docx, body_on(docx, st, a), b),
    decreases b.len(),
{
    if b.len() == 0 {
        assert(a + b =~= a);
    } else {
        lemma_body_concat(docx, st, a, b.drop_last());
        assert((a + b).drop_last() =~= a + b.drop_last());
        assert((a + b).last() == b.last());
    }
}

proof fn lemma_body_one(docx: bool, st: BodyView, ev: EventView)
    ensures
        body_on(docx, st, seq![ev]) == body_step(docx, st, ev),
{
    assert(seq![ev].drop_last() =~= Seq::<EventView>::empty());
    assert(body_on(docx, st, seq![ev].drop_last()) == st);
}

proof fn lemma_docx_run(evs: Seq<EventView>, n: nat)
    requires
        n <= evs.len(),
    ensures
        docx_run(evs, docx_tags(), n) == body_on(true, empty_body(), evs.take(n as int)),
        odt_run(evs, odt_tags(), n) == body_on(false, empty_body(), evs.take(n as int)),
    decreases n,
{
    if n > 0 {
        lemma_docx_run(evs, (n - 1) as nat);
        assert(evs.take(n as int).drop_last() =~= evs.take(n - 1));
    } else {
        assert(evs.take(0) =~= Seq::<EventView>::empty());
    }
}

proof fn lemma_body_between(
    docx: bool,
    st: BodyView,
    open: EventView,
    inside: Seq<EventView>,
    close: EventView,
)
    ensures
        body_on(docx, st, seq![open] + inside + seq![close]) == body_step(
            docx,
            body_on(docx, body_step(docx, st, open), inside),
            close,
        ),
{
    lemma_body_one(docx, st, open);
    lemma_body_concat(docx, st, seq![open], inside);
    lemma_body_concat(docx, st, seq![open] + inside, seq![close]);
    lemma_body_one(docx, body_on(docx, st, seq![open] + inside), close);
}

proof fn lemma_doc_names()
    ensures
        "w:tbl"@.len() == 5 && "w:tr"@.len() == 4 && "w:tc"@.len() == 4 && "w:p"@.len() == 3,
        "w:tr"@ != "w:tc"@,
        "w:pStyle"@.len() == 8,
        "table:table"@.len() == 11 && "table:table-row"@.len() == 15,
        "table:table-cell"@.len() == 16 && "text:p"@.len() == 6 && "text:h"@.len() == 6,
        "text:p"@ != "text:h"@,
{
    reveal_strlit("w:tbl");
    reveal_strlit("w:tr");
    reveal_strlit("w:tc");
    reveal_strlit("w:p");
    reveal_strlit("w:pStyle");
    reveal_strlit("table:table");
    reveal_strlit("table:table-row");
    reveal_strlit("table:table-cell");
    reveal_strlit("text:p");
    reveal_strlit("text:h");
    assert("w:tr"@[3] == 'r' && "w:tc"@[3] == 'c');
    assert("text:p"@[5] == 'p' && "text:h"@[5] == 'h');
}

/// Inline events add their text to the cell or the paragraph that is open.
proof fn lemma_body_inline(docx: bool, st: BodyView, evs: Seq<EventView>)
    requires
        is_doc_inline(evs, docx),
        st.grid.depth == 0 || (st.grid.depth == 1 && st.grid.capturing),
    ensures
        body_on(docx, st, evs) == (if st.grid.depth == 1 {
            BodyView { grid: GridView { cell: st.grid.cell + said(evs), ..st.grid }, ..st }
        } else if st.in_para {
            BodyView { para: st.para + said(evs), ..st }
        } else {
            st
        }),
    decreases evs.len(),
{
    if evs.len() == 0 {
        assert(st.grid.cell + said(evs) =~= st.grid.cell);
        assert(st.para + said(evs) =~= st.para);
    } else {
        let front = evs.drop_last();
        let ev = evs.last();
        assert forall|i: int| 0 <= i < front.len() implies match #[trigger] front[i] {
            EventView::Start(t) => is_doc_inline_name(t.name, docx),
            EventView::Empty(t) => is_doc_inline_name(t.name, docx),
            EventView::End(n) => is_doc_inline_name(n, docx),
            _ => true,
        } by {
            assert(front[i] == evs[i]);
        }
        lemma_body_inline(docx, st, front);
        assert(evs[evs.len() - 1] == ev);
        let mid = body_on(docx, st, front);
        match ev {
            EventView::Start(_) => {
                assert(body_step(docx, mid, ev) == mid);
                assert(said_by(ev) =~= Seq::<char>::empty());
            },
            EventView::Empty(_) => {
                assert(body_step(docx, mid, ev) == mid);
                assert(said_by(ev) =~= Seq::<char>::empty());
            },
            EventView::End(_) => {
                assert(body_step(docx, mid, ev) == mid);
                assert(said_by(ev) =~= Seq::<char>::empty());
            },
            _ => {
                events_say_their_text(ev);
            },
        }
        assert(st.grid.cell + said(front) + said_by(ev) =~= st.grid.cell + said(evs));
        assert(st.para + said(front) + said_by(ev) =~= st.para + said(evs));
    }
}

proof fn lemma_doc_paras(docx: bool, st: BodyView, paras: Seq<Seq<EventView>>)
    requires
        st.grid.depth == 1,
        st.grid.capturing,
        st.grid.cell.len() == 0,
        is_doc_cell(paras, docx),
    ensures
        ({
            let para = if docx {
                "w:p"@
            } else {
                "text:p"@
            };
            body_on(
                docx,
                st,
                run_together(Seq::new(paras.len(), |i: int| element(para, paras[i]))),
            ) == (BodyView {
                grid: GridView { cell: doc_cell_text(paras), ..st.grid },
                ..st
            })
        }),
        paras.len() > 0 ==> doc_cell_text(paras).len() > 0,
    decreases paras.len(),
{
    let para = if docx {
        "w:p"@
    } else {
        "text:p"@
    };
    let parts = Seq::new(paras.len(), |i: int| element(para, paras[i]));
    let texts = Seq::new(paras.len(), |i: int| said(paras[i]));
    if paras.len() == 0 {
        assert(st.grid.cell =~= doc_cell_text(paras));
    } else {
        lemma_doc_names();
        let front = paras.drop_last();
        let last = paras[paras.len() - 1];
        assert forall|i: int| 0 <= i < front.len() implies is_doc_inline(#[trigger] front[i], docx)
            && said(front[i]).len() > 0 by {
            assert(front[i] == paras[i]);
        }
        lemma_doc_paras(docx, st, front);
        assert(parts.drop_last() =~= Seq::new(front.len(), |i: int| element(para, front[i])));
        assert(texts.drop_last() =~= Seq::new(front.len(), |i: int| said(front[i])));
        assert(parts.last() == element(para, last));
        lemma_body_concat(docx, st, run_together(parts.drop_last()), parts.last());
        let mid = body_on(docx, st, run_together(parts.drop_last()));
        let open = EventView::Start(TagView { name: para, attrs: Seq::empty() });
        lemma_body_between(docx, mid, open, last, EventView::End(para));
        let inner = body_step(docx, mid, open);
        let before = if front.len() == 0 {
            Seq::<char>::empty()
        } else {
            doc_cell_text(front).push('\n')
        };
        assert(inner == (BodyView { grid: GridView { cell: before, ..st.grid }, ..st })) by {
            if front.len() == 0 {
                assert(doc_cell_text(front) =~= Seq::<char>::empty());
            }
        }
        lemma_body_inline(docx, inner, last);
        reveal_strlit("\n");
        if front.len() == 0 {
            assert(before + said(last) =~= doc_cell_text(paras));
        } else {
            assert(doc_cell_text(front).push('\n') =~= doc_cell_text(front) + "\n"@);
            assert(before + said(last) =~= doc_cell_text(paras));
        }
    }
}

/// Whether a state is inside a table, between cells.
spec fn is_between_cells(st: BodyView, blocks: Seq<Json>, rows: Seq<Json>) -> bool {
    st.grid.depth == 1 && st.blocks == blocks && st.grid.rows == rows && !st.in_para
        && !st.grid.capturing
}

proof fn lemma_doc_cells(
    docx: bool,
    st: BodyView,
    cells: Seq<Seq<Seq<EventView>>>,
)
    requires
        is_between_cells(st, st.blocks, st.grid.rows),
        st.grid.row.len() == 0,
        is_doc_row(cells, docx),
    ensures
        ({
            let after = body_on(
                docx,
                st,
                run_together(Seq::new(cells.len(), |i: int| doc_cell_events(cells[i], docx))),
            );
            is_between_cells(after, st.blocks, st.grid.rows) && after.grid.row == Seq::new(
                cells.len(),
                |j: int| doc_cell_text(cells[j]),
            )
        }),
    decreases cells.len(),
{
    let parts = Seq::new(cells.len(), |i: int| doc_cell_events(cells[i], docx));
    if cells.len() == 0 {
        assert(st.grid.row =~= Seq::new(cells.len(), |j: int| doc_cell_text(cells[j])));
    } else {
        lemma_doc_names();
        let front = cells.drop_last();
        let last = cells[cells.len() - 1];
        assert forall|i: int| 0 <= i < front.len() implies is_doc_cell(
            #[trigger] front[i],
            docx,
        ) by {
            assert(front[i] == cells[i]);
        }
        lemma_doc_cells(docx, st, front);
        assert(parts.drop_last() =~= Seq::new(
            front.len(),
            |i: int| doc_cell_events(front[i], docx),
        ));
        assert(parts.last() == doc_cell_events(last, docx));
        lemma_body_concat(docx, st, run_together(parts.drop_last()), parts.last());
        let mid = body_on(docx, st, run_together(parts.drop_last()));
        let name = if docx {
            "w:tc"@
        } else {
            "table:table-cell"@
        };
        let para = if docx {
            "w:p"@
        } else {
            "text:p"@
        };
        let inside = run_together(Seq::new(last.len(), |i: int| element(para, last[i])));
        let open = EventView::Start(TagView { name, attrs: Seq::empty() });
        lemma_body_between(docx, mid, open, inside, EventView::End(name));
        let inner = body_step(docx, mid, open);
        assert(inner == (BodyView {
            grid: GridView { cell: Seq::empty(), capturing: true, ..mid.grid },
            ..mid
        }));
        lemma_doc_paras(docx, inner, last);
        assert(Seq::new(front.len(), |j: int| doc_cell_text(front[j])).push(doc_cell_text(last))
            =~= Seq::new(cells.len(), |j: int| doc_cell_text(cells[j])));
    }
}

proof fn lemma_doc_rows(docx: bool, st: BodyView, rows: Seq<Seq<Seq<Seq<EventView>>>>)
    requires
        is_between_cells(st, st.blocks, Seq::empty()),
        forall|i: int| 0 <= i < rows.len() ==> is_doc_row(#[trigger] rows[i], docx),
    ensures
        is_between_cells(
            body_on(
                docx,
                st,
                run_together(Seq::new(rows.len(), |i: int| doc_row_events(rows[i], docx))),
            ),
            st.blocks,
            Seq::new(rows.len(), |i: int| doc_row_texts(rows[i])),
        ),
    decreases rows.len(),
{
    let parts = Seq::new(rows.len(), |i: int| doc_row_events(rows[i], docx));
    if rows.len() == 0 {
        assert(st.grid.rows =~= Seq::new(rows.len(), |i: int| doc_row_texts(rows[i])));
    } else {
        lemma_doc_names();
        let front = rows.drop_last();
        let last = rows[rows.len() - 1];
        assert forall|i: int| 0 <= i < front.len() implies is_doc_row(#[trigger] front[i], docx) by {
            assert(front[i] == rows[i]);
        }
        lemma_doc_rows(docx, st, front);
        assert(parts.drop_last() =~= Seq::new(
            front.len(),
            |i: int| doc_row_events(front[i], docx),
        ));
        assert(parts.last() == doc_row_events(last, docx));
        lemma_body_concat(docx, st, run_together(parts.drop_last()), parts.last());
        let mid = body_on(docx, st, run_together(parts.drop_last()));
        let name = if docx {
            "w:tr"@
        } else {
            "table:table-row"@
        };
        let inside = run_together(Seq::new(last.len(), |i: int| doc_cell_events(last[i], docx)));
        let open = EventView::Start(TagView { name, attrs: Seq::empty() });
        lemma_body_between(docx, mid, open, inside, EventView::End(name));
        let inner = body_step(docx, mid, open);
        assert(inner == (BodyView { grid: GridView { row: Seq::empty(), ..mid.grid }, ..mid }));
        lemma_doc_cells(docx, inner, last);
        let full = body_on(docx, inner, inside);
        assert(text_row(full.grid.row)->Array_0 =~= doc_row_texts(last)->Array_0);
        assert(Seq::new(front.len(), |i: int| doc_row_texts(front[i])).push(doc_row_texts(last))
            =~= Seq::new(rows.len(), |i: int| doc_row_texts(rows[i])));
    }
}

/// The level that a heading of either format has.
proof fn lemma_levels(level: u64)
    requires
        1 <= level <= 9,
    ensures
        style_level("Heading"@ + decimal(level as nat)) == Some(level),
        outline_level(tag_with("text:h"@, "text:outline-level"@, decimal(level as nat)))
            == level,
        raw_attr(
            tag_with("w:pStyle"@, "w:val"@, "Heading"@ + decimal(level as nat)),
            "w:val"@,
        ) == Some("Heading"@ + decimal(level as nat)),
{
    let d = decimal(level as nat);
    lemma_decimal_digits(level as nat);
    decimal_reads_back(level as nat);
    assert(d.len() == 1 && d[0] == ('0' as u32 + level as u32) as char);
    assert(is_digit(d[0]));
    assert(d.subrange(0, 1) =~= d);
    crate::render::lemma_trim_is(d, d, 0, 1);
    reveal_strlit("Heading");
    reveal_strlit("heading");
    let s = "Heading"@ + d;
    assert(s.len() == 8);
    assert(s.subrange(0, 8) =~= s);
    crate::render::lemma_trim_is(s, s, 0, 8);
    let l = lower(s);
    assert(l.subrange(0, 7) =~= "heading"@);
    assert(l.last() == d[0]);
    let t = tag_with("text:h"@, "text:outline-level"@, d);
    assert(attr_pos(t.attrs, "text:outline-level"@, 0) == 0);
    assert(raw_attr(t, "text:outline-level"@) == Some(d));
    let u = tag_with("w:pStyle"@, "w:val"@, s);
    assert(attr_pos(u.attrs, "w:val"@, 0) == 0);
}

/// Whether a state is between blocks.
spec fn is_between_blocks(st: BodyView) -> bool {
    st.grid.depth == 0 && !st.in_para && !st.grid.capturing
}

proof fn lemma_doc_item(docx: bool, st: BodyView, item: DocItem)
    requires
        is_between_blocks(st),
        is_doc_item(item, docx),
    ensures
        ({
            let after = body_on(docx, st, doc_item_events(item, docx));
            is_between_blocks(after) && after.blocks == st.blocks.push(doc_item_block(item))
        }),
{
    lemma_doc_names();
    match item {
        DocItem::Para(x) => {
            let n = if docx {
                "w:p"@
            } else {
                "text:p"@
            };
            let open = EventView::Start(TagView { name: n, attrs: Seq::empty() });
            lemma_body_between(docx, st, open, x, EventView::End(n));
            let inner = body_step(docx, st, open);
            assert(inner == (BodyView { in_para: true, para: Seq::empty(), heading: None, ..st }));
            lemma_body_inline(docx, inner, x);
            assert(Seq::<char>::empty() + said(x) =~= said(x));
        },
        DocItem::Heading(level, x) => {
            lemma_levels(level);
            if docx {
                let open = EventView::Start(TagView { name: "w:p"@, attrs: Seq::empty() });
                let style = EventView::Empty(
                    tag_with("w:pStyle"@, "w:val"@, "Heading"@ + decimal(level as nat)),
                );
                lemma_body_between(docx, st, open, seq![style] + x, EventView::End("w:p"@));
                let inner = body_step(docx, st, open);
                lemma_body_concat(docx, inner, seq![style], x);
                lemma_body_one(docx, inner, style);
                let styled = body_step(docx, inner, style);
                assert(styled == (BodyView {
                    in_para: true,
                    para: Seq::empty(),
                    heading: Some(level),
                    ..st
                }));
                lemma_body_inline(docx, styled, x);
            } else {
                let open = EventView::Start(
                    tag_with("text:h"@, "text:outline-level"@, decimal(level as nat)),
                );
                lemma_body_between(docx, st, open, x, EventView::End("text:h"@));
                let inner = body_step(docx, st, open);
                assert(inner == (BodyView {
                    in_para: true,
                    para: Seq::empty(),
                    heading: Some(level),
                    ..st
                }));
                lemma_body_inline(docx, inner, x);
            }
            assert(Seq::<char>::empty() + said(x) =~= said(x));
        },
        DocItem::Table(rows) => {
            let n = if docx {
                "w:tbl"@
            } else {
                "table:table"@
            };
            let inside = run_together(Seq::new(rows.len(), |i: int| doc_row_events(rows[i], docx)));
            let open = EventView::Start(TagView { name: n, attrs: Seq::empty() });
            lemma_body_between(docx, st, open, inside, EventView::End(n));
            let inner = body_step(docx, st, open);
            assert(inner == (BodyView {
                grid: GridView { depth: 1, rows: Seq::empty(), ..st.grid },
                ..st
            }));
            lemma_doc_rows(docx, inner, rows);
        },
    }
}

/// A body: blocks, each with what stands before it and makes none.
pub open spec fn doc_body(items: Seq<(Seq<EventView>, DocItem)>, docx: bool) -> Seq<EventView> {
    run_together(
        Seq::new(items.len(), |i: int| items[i].0 + doc_item_events(items[i].1, docx)),
    )
}

proof fn lemma_doc_body(items: Seq<(Seq<EventView>, DocItem)>, docx: bool)
    requires
        forall|i: int|
            0 <= i < items.len() ==> is_doc_inline((#[trigger] items[i]).0, docx) && is_doc_item(
                items[i].1,
                docx,
            ),
    ensures
        ({
            let after = body_on(docx, empty_body(), doc_body(items, docx));
            is_between_blocks(after) && after.blocks == Seq::new(
                items.len(),
                |i: int| doc_item_block(items[i].1),
            )
        }),
    decreases items.len(),
{
    let parts = Seq::new(items.len(), |i: int| items[i].0 + doc_item_events(items[i].1, docx));
    if items.len() == 0 {
        assert(empty_body().blocks =~= Seq::new(
            items.len(),
            |i: int| doc_item_block(items[i].1),
        ));
    } else {
        let front = items.drop_last();
        let last = items[items.len() - 1];
        assert forall|i: int| 0 <= i < front.len() implies is_doc_inline(
            (#[trigger] front[i]).0,
            docx,
        ) && is_doc_item(front[i].1, docx) by {
            assert(front[i] == items[i]);
        }
        lemma_doc_body(front, docx);
        assert(parts.drop_last() =~= Seq::new(
            front.len(),
            |i: int| front[i].0 + doc_item_events(front[i].1, docx),
        ));
        let mid = body_on(docx, empty_body(), doc_body(front, docx));
        assert(parts.last() == last.0 + doc_item_events(last.1, docx));
        lemma_body_concat(docx, empty_body(), doc_body(front, docx), parts.last());
        lemma_body_concat(docx, mid, last.0, doc_item_events(last.1, docx));
        lemma_body_inline(docx, mid, last.0);
        lemma_doc_item(docx, mid, last.1);
        assert(Seq::new(front.len(), |i: int| doc_item_block(front[i].1)).push(
            doc_item_block(last.1),
        ) =~= Seq::new(items.len(), |i: int| doc_item_block(items[i].1)));
    }
}

/// The body of a docx or an odt file gives one block for each of its paragraphs, headings and
/// tables, in order, with what they say: a heading its level, and a table each cell of each
/// row, the paragraphs of a cell on lines of their own.
pub proof fn bodies_give_their_blocks(items: Seq<(Seq<EventView>, DocItem)>)
    ensures
        (forall|i: int|
            0 <= i < items.len() ==> is_doc_inline((#[trigger] items[i]).0, true) && is_doc_item(
                items[i].1,
                true,
            )) ==> docx_blocks(doc_body(items, true)) == Seq::new(
            items.len(),
            |i: int| doc_item_block(items[i].1),
        ),
        (forall|i: int|
            0 <= i < items.len() ==> is_doc_inline((#[trigger] items[i]).0, false) && is_doc_item(
                items[i].1,
                false,
            )) ==> odt_blocks(doc_body(items, false)) == Seq::new(
            items.len(),
            |i: int| doc_item_block(items[i].1),
        ),
{
    if forall|i: int|
        0 <= i < items.len() ==> is_doc_inline((#[trigger] items[i]).0, true) && is_doc_item(
            items[i].1,
            true,
        ) {
        let evs = doc_body(items, true);
        lemma_doc_body(items, true);
        lemma_docx_run(evs, evs.len());
        assert(evs.take(evs.len() as int) =~= evs);
    }
    if forall|i: int|
        0 <= i < items.len() ==> is_doc_inline((#[trigger] items[i]).0, false) && is_doc_item(
            items[i].1,
            false,
        ) {
        let evs = doc_body(items, false);
        lemma_doc_body(items, false);
        lemma_docx_run(evs, evs.len());
        assert(evs.take(evs.len() as int) =~= evs);
    }
}

// ── hyperlinks ──────────────────────────────────────────────────────────────

pub open spec fn link_object(text: Seq<char>, url: Seq<char>) -> Json {
    Json::Object(seq![("text"@, Json::Text(text)), ("url"@, Json::Text(url))])
}

pub fn make_link(text: &str, url: &str) -> (r: Value)
    ensures
        r.deep_view() == link_object(text@, url@),
{
    let mut o: Vec<(String, Value)> = Vec::new();
    add_member(&mut o, "text", text_value(text));
    add_member(&mut o, "url", text_value(url));
    assert(o.deep_view() =~= link_object(text@, url@)->Object_0);
    object(o)
}

/// What has been read of the links.
#[verifier::ext_equal]
pub struct LinksView {
    pub out: Seq<Json>,
    pub depth: int,
    pub url: Seq<char>,
    pub text: Seq<char>,
}

/// The address of a docx hyperlink: the target of its relationship, or `#` and
/// its anchor, or nothing.
pub open spec fn docx_url(tag: TagView, map: Seq<(Seq<char>, Seq<char>)>) -> Seq<char> {
    match raw_attr(tag, "r:id"@) {
        Some(rid) => match last_pair(map, rid, map.len()) {
            Some(t) => t,
            None => Seq::empty(),
        },
        None => match raw_attr(tag, "w:anchor"@) {
            Some(a) => "#"@ + a,
            None => Seq::empty(),
        },
    }
}

/// The address of an odt hyperlink.
pub open spec fn odt_url(tag: TagView) -> Seq<char> {
    match resolved_attr(tag, "xlink:href"@) {
        Some(u) => u,
        None => Seq::empty(),
    }
}

/// One event; `name` is the element of a link and `url_of` its address.
pub open spec fn links_step(
    st: LinksView,
    ev: EventView,
    name: Seq<char>,
    url_of: spec_fn(TagView) -> Seq<char>,
) -> LinksView {
    match ev {
        EventView::Start(tag) => if tag.name == name {
            if st.depth == 0 {
                LinksView { depth: 1, text: Seq::empty(), url: url_of(tag), ..st }
            } else {
                LinksView { depth: st.depth + 1, ..st }
            }
        } else {
            st
        },
        EventView::End(n) => if n == name {
            if st.depth == 1 {
                LinksView {
                    out: st.out.push(link_object(st.text, st.url)),
                    depth: 0,
                    text: Seq::empty(),
                    url: Seq::empty(),
                }
            } else {
                LinksView { depth: st.depth - 1, ..st }
            }
        } else {
            st
        },
        _ => if st.depth > 0 {
            LinksView { text: st.text + event_text(ev), ..st }
        } else {
            st
        },
    }
}

pub open spec fn links_run(
    evs: Seq<EventView>,
    name: Seq<char>,
    url_of: spec_fn(TagView) -> Seq<char>,
    n: nat,
) -> LinksView
    decreases n,
{
    if n == 0 || n > evs.len() {
        LinksView { out: Seq::empty(), depth: 0, url: Seq::empty(), text: Seq::empty() }
    } else {
        links_step(links_run(evs, name, url_of, (n - 1) as nat), evs[n - 1], name, url_of)
    }
}

/// The hyperlinks of a docx body, given the pairs of its relationship part.
pub open spec fn docx_links(evs: Seq<EventView>, map: Seq<(Seq<char>, Seq<char>)>) -> Seq<Json> {
    links_run(evs, "w:hyperlink"@, |tag: TagView| docx_url(tag, map), evs.len()).out
}

/// The hyperlinks of an odt body.
pub open spec fn odt_links(evs: Seq<EventView>) -> Seq<Json> {
    links_run(evs, "text:a"@, |tag: TagView| odt_url(tag), evs.len()).out
}

/// The hyperlinks of a docx body among events.
pub fn collect_links_docx(evs: &Vec<XmlEvent>, map: &Vec<(String, String)>) -> (r: Vec<Value>)
    ensures
        r.deep_view() == docx_links(evs.deep_view(), map.deep_view()),
{
    let ghost f = |tag: TagView| docx_url(tag, map.deep_view());
    let mut out: Vec<Value> = Vec::new();
    let mut depth: i128 = 0;
    let mut url = String::new();
    let mut text = String::new();
    let mut i: usize = 0;
    assert(out.deep_view() =~= Seq::<Json>::empty());
    while i < evs.len()
        invariant
            i <= evs@.len(),
            -(i as int) <= depth <= i,
            f == (|tag: TagView| docx_url(tag, map.deep_view())),
            (LinksView { out: out.deep_view(), depth: depth as int, url: url@, text: text@ })
                == links_run(evs.deep_view(), "w:hyperlink"@, f, i as nat),
        decreases evs@.len() - i,
    {
        assert(evs.deep_view()[i as int] == evs@[i as int].deep_view());
        match &evs[i] {
            XmlEvent::Start(tag) => {
                if same(tag.name.as_str(), "w:hyperlink") {
                    depth = depth + 1;
                    if depth == 1 {
                        text = String::new();
                        url = match attr(tag, "r:id") {
                            Some(rid) => match lookup_pair(map, rid) {
                                Some(t) => t,
                                None => String::new(),
                            },
                            None => match attr(tag, "w:anchor") {
                                Some(a) => crate::text::concat2("#", a),
                                None => String::new(),
                            },
                        };
                        assert(url@ =~= f(tag.deep_view()));
                    }
                }
            },
            XmlEvent::End(n) => {
                if same(n.as_str(), "w:hyperlink") {
                    depth = depth - 1;
                    if depth == 0 {
                        push_deep(&mut out, make_link(text.as_str(), url.as_str()));
                        text = String::new();
                        url = String::new();
                    }
                }
            },
            ev => {
                if depth > 0 {
                    push_event_text(&mut text, ev);
                }
            },
        }
        i = i + 1;
    }
    out
}

/// The hyperlinks of an odt body among events.
pub fn collect_links_odt(evs: &Vec<XmlEvent>) -> (r: Vec<Value>)
    ensures
        r.deep_view() == odt_links(evs.deep_view()),
{
    let ghost f = |tag: TagView| odt_url(tag);
    let mut out: Vec<Value> = Vec::new();
    let mut depth: i128 = 0;
    let mut url = String::new();
    let mut text = String::new();
    let mut i: usize = 0;
    assert(out.deep_view() =~= Seq::<Json>::empty());
    while i < evs.len()
        invariant
            i <= evs@.len(),
            -(i as int) <= depth <= i,
            f == (|tag: TagView| odt_url(tag)),
            (LinksView { out: out.deep_view(), depth: depth as int, url: url@, text: text@ })
                == links_run(evs.deep_view(), "text:a"@, f, i as nat),
        decreases evs@.len() - i,
    {
        assert(evs.deep_view()[i as int] == evs@[i as int].deep_view());
        match &evs[i] {
            XmlEvent::Start(tag) => {
                if same(tag.name.as_str(), "text:a") {
                    depth = depth + 1;
                    if depth == 1 {
                        text = String::new();
                        url = match attr_resolved(tag, "xlink:href") {
                            Some(u) => u,
                            None => String::new(),
                        };
                        assert(url@ =~= f(tag.deep_view()));
                    }
                }
            },
            XmlEvent::End(n) => {
                if same(n.as_str(), "text:a") {
                    depth = depth - 1;
                    if depth == 0 {
                        push_deep(&mut out, make_link(text.as_str(), url.as_str()));
                        text = String::new();
                        url = String::new();
                    }
                }
            },
            ev => {
                if depth > 0 {
                    push_event_text(&mut text, ev);
                }
            },
        }
        i = i + 1;
    }
    out
}

/// The hyperlinks of a docx body: display text and address.
pub fn extract_links_docx(doc_xml: &[u8], rels_xml: &[u8]) -> (r: Vec<Value>)
    ensures
        r.deep_view() == docx_links(
            xml_items(doc_xml@, true),
            relationship_pairs(xml_items(rels_xml@, true), xml_items(rels_xml@, true).len()),
        ),
{
    let map = rels_id_target_map(rels_xml);
    let evs = xml_events(doc_xml, true);
    collect_links_docx(&evs, &map)
}

/// The hyperlinks of an odt body: display text and address.
pub fn extract_links_odt(xml: &[u8]) -> (r: Vec<Value>)
    ensures
        r.deep_view() == odt_links(xml_items(xml@, true)),
{
    let evs = xml_events(xml, true);
    collect_links_odt(&evs)
}

/// A link as it is written: what stands before it, its tag, and what stands in it.
pub struct WrittenLink {
    pub before: Seq<EventView>,
    pub tag: TagView,
    pub inside: Seq<EventView>,
}

/// Whether no link of a name begins or ends among events.
pub open spec fn has_no_link(evs: Seq<EventView>, name: Seq<char>) -> bool {
    forall|i: int|
        0 <= i < evs.len() ==> match #[trigger] evs[i] {
            EventView::Start(t) => t.name != name,
            EventView::End(n) => n != name,
            _ => true,
        }
}

pub open spec fn is_written_link(x: WrittenLink, name: Seq<char>) -> bool {
    x.tag.name == name && has_no_link(x.before, name) && has_no_link(x.inside, name)
}

pub open spec fn link_events(links: Seq<WrittenLink>) -> Seq<EventView>
    decreases links.len(),
{
    if links.len() == 0 {
        Seq::empty()
    } else {
        let x = links.last();
        link_events(links.drop_last()) + (x.before + seq![EventView::Start(x.tag)] + x.inside
            + seq![EventView::End(x.tag.name)])
    }
}

spec fn links_on(
    st: LinksView,
    evs: Seq<EventView>,
    name: Seq<char>,
    url_of: spec_fn(TagView) -> Seq<char>,
) -> LinksView
    decreases evs.len(),
{
    if evs.len() == 0 {
        st
    } else {
        links_step(links_on(st, evs.drop_last(), name, url_of), evs.last(), name, url_of)
    }
}

proof fn lemma_links_on(
    st: LinksView,
    a: Seq<EventView>,
    b: Seq<EventView>,
    name: Seq<char>,
    url_of: spec_fn(TagView) -> Seq<char>,
)
    ensures
        links_on(st, a + b, name, url_of) == links_on(
            links_on(st, a, name, url_of),
            b,
            name,
            url_of,
        ),
    decreases b.len(),
{
    if b.len() == 0 {
        assert(a + b =~= a);
    } else {
        lemma_links_on(st, a, b.drop_last(), name, url_of);
        assert((a + b).drop_last() =~= a + b.drop_last());
        assert((a + b).last() == b.last());
    }
}

proof fn lemma_links_one(
    st: LinksView,
    e: EventView,
    name: Seq<char>,
    url_of: spec_fn(TagView) -> Seq<char>,
)
    ensures
        links_on(st, seq![e], name, url_of) == links_step(st, e, name, url_of),
{
    assert(seq![e].drop_last() =~= Seq::<EventView>::empty());
    assert(links_on(st, Seq::<EventView>::empty(), name, url_of) == st);
    assert(seq![e].last() == e);
}

proof fn lemma_links_run(
    evs: Seq<EventView>,
    name: Seq<char>,
    url_of: spec_fn(TagView) -> Seq<char>,
    n: nat,
)
    requires
        n <= evs.len(),
    ensures
        links_run(evs, name, url_of, n) == links_on(
            links_run(evs, name, url_of, 0),
            evs.take(n as int),
            name,
            url_of,
        ),
    decreases n,
{
    if n > 0 {
        lemma_links_run(evs, name, url_of, (n - 1) as nat);
        assert(evs.take(n as int).drop_last() =~= evs.take(n - 1));
        assert(evs.take(n as int).last() == evs[n - 1]);
    }
}

proof fn lemma_links_inside(
    st: LinksView,
    evs: Seq<EventView>,
    name: Seq<char>,
    url_of: spec_fn(TagView) -> Seq<char>,
)
    requires
        has_no_link(evs, name),
    ensures
        st.depth <= 0 ==> links_on(st, evs, name, url_of) == st,
        st.depth > 0 ==> links_on(st, evs, name, url_of) == (LinksView {
            text: st.text + said(evs),
            ..st
        }),
    decreases evs.len(),
{
    if evs.len() == 0 {
        assert(st.text + said(evs) =~= st.text);
    } else {
        let front = evs.drop_last();
        assert(has_no_link(front, name)) by {
            assert forall|i: int| 0 <= i < front.len() implies match #[trigger] front[i] {
                EventView::Start(t) => t.name != name,
                EventView::End(n) => n != name,
                _ => true,
            } by {
                assert(front[i] == evs[i]);
            }
        }
        lemma_links_inside(st, front, name, url_of);
        let ev = evs.last();
        assert(ev == evs[evs.len() - 1]);
        events_say_their_text(ev);
        assert(st.text + said(front) + said_by(ev) =~= st.text + said(evs));
        assert(st.text + said(front) + Seq::<char>::empty() =~= st.text + said(front));
    }
}

proof fn lemma_links_read(
    st: LinksView,
    links: Seq<WrittenLink>,
    name: Seq<char>,
    url_of: spec_fn(TagView) -> Seq<char>,
)
    requires
        st.depth == 0,
        st.out.len() == 0,
        forall|k: int| 0 <= k < links.len() ==> is_written_link(#[trigger] links[k], name),
    ensures
        ({
            let now = links_on(st, link_events(links), name, url_of);
            &&& now.depth == 0
            &&& now.out == Seq::new(
                links.len(),
                |k: int|
                    Json::Object(
                        seq![
                            ("text"@, Json::Text(said(links[k].inside))),
                            ("url"@, Json::Text(url_of(links[k].tag))),
                        ],
                    ),
            )
        }),
    decreases links.len(),
{
    let told = |x: WrittenLink|
        Json::Object(
            seq![("text"@, Json::Text(said(x.inside))), ("url"@, Json::Text(url_of(x.tag)))],
        );
    let all = Seq::new(
        links.len(),
        |k: int|
            Json::Object(
                seq![
                    ("text"@, Json::Text(said(links[k].inside))),
                    ("url"@, Json::Text(url_of(links[k].tag))),
                ],
            ),
    );
    if links.len() == 0 {
        assert(st.out =~= all);
    } else {
        let front = links.drop_last();
        assert forall|k: int| 0 <= k < front.len() implies is_written_link(
            #[trigger] front[k],
            name,
        ) by {
            assert(front[k] == links[k]);
        }
        lemma_links_read(st, front, name, url_of);
        let x = links.last();
        assert(x == links[links.len() - 1]);
        assert(is_written_link(x, name));
        let was = links_on(st, link_events(front), name, url_of);
        let a = seq![EventView::Start(x.tag)];
        let e = seq![EventView::End(x.tag.name)];
        lemma_links_on(st, link_events(front), x.before + a + x.inside + e, name, url_of);
        lemma_links_on(was, x.before + a + x.inside, e, name, url_of);
        lemma_links_on(was, x.before + a, x.inside, name, url_of);
        lemma_links_on(was, x.before, a, name, url_of);
        lemma_links_inside(was, x.before, name, url_of);
        lemma_links_one(was, a[0], name, url_of);
        let one = links_on(was, a, name, url_of);
        lemma_links_inside(one, x.inside, name, url_of);
        let two = links_on(one, x.inside, name, url_of);
        assert(two.text =~= said(x.inside));
        lemma_links_one(two, e[0], name, url_of);
        assert(links_on(st, link_events(links), name, url_of).out == was.out.push(told(x)));
        assert(was.out.push(told(x)) =~= all);
    }
}

/// The links that are written in a body are read in their order, each with what is said in it
/// and with its address; what stands outside of links is passed over.
pub proof fn links_are_read_as_written(
    links: Seq<WrittenLink>,
    map: Seq<(Seq<char>, Seq<char>)>,
    k: int,
)
    requires
        0 <= k < links.len(),
    ensures
        (forall|i: int|
            0 <= i < links.len() ==> is_written_link(#[trigger] links[i], "w:hyperlink"@)) ==> ({
            let out = docx_links(link_events(links), map);
            &&& out.len() == links.len()
            &&& out[k] == Json::Object(
                seq![
                    ("text"@, Json::Text(said(links[k].inside))),
                    ("url"@, Json::Text(docx_url(links[k].tag, map))),
                ],
            )
        }),
        (forall|i: int|
            0 <= i < links.len() ==> is_written_link(#[trigger] links[i], "text:a"@)) ==> ({
            let out = odt_links(link_events(links));
            &&& out.len() == links.len()
            &&& out[k] == Json::Object(
                seq![
                    ("text"@, Json::Text(said(links[k].inside))),
                    (
                        "url"@,
                        match resolved_attr(links[k].tag, "xlink:href"@) {
                            Some(u) => Json::Text(u),
                            None => Json::Text(Seq::empty()),
                        },
                    ),
                ],
            )
        }),
{
    let evs = link_events(links);
    assert(evs.take(evs.len() as int) =~= evs);
    if forall|i: int|
        0 <= i < links.len() ==> is_written_link(#[trigger] links[i], "w:hyperlink"@) {
        let url_of = |tag: TagView| docx_url(tag, map);
        lemma_links_run(evs, "w:hyperlink"@, url_of, evs.len());
        lemma_links_read(
            links_run(evs, "w:hyperlink"@, url_of, 0),
            links,
            "w:hyperlink"@,
            url_of,
        );
    }
    if forall|i: int| 0 <= i < links.len() ==> is_written_link(#[trigger] links[i], "text:a"@) {
        let url_of = |tag: TagView| odt_url(tag);
        lemma_links_run(evs, "text:a"@, url_of, evs.len());
        lemma_links_read(links_run(evs, "text:a"@, url_of, 0), links, "text:a"@, url_of);
        let out = odt_links(evs);
        assert(out[k]->Object_0 =~= seq![
            ("text"@, Json::Text(said(links[k].inside))),
            (
                "url"@,
                match resolved_attr(links[k].tag, "xlink:href"@) {
                    Some(u) => Json::Text(u),
                    None => Json::Text(Seq::empty()),
                },
            ),
        ]);
    }
}

/// The address of a docx link is the target that its relationship is last given, or its anchor
/// behind a number sign; of a relationship that is not given it is empty.
pub proof fn docx_addresses_come_from_relationships(
    tag: TagView,
    map: Seq<(Seq<char>, Seq<char>)>,
    i: int,
)
    requires
        0 <= i < map.len(),
    ensures
        raw_attr(tag, "r:id"@) == Some(map[i].0) && (forall|k: int|
            i < k < map.len() ==> (#[trigger] map[k]).0 != map[i].0) ==> docx_url(tag, map)
            == map[i].1,
        raw_attr(tag, "r:id"@) is Some && (forall|k: int|
            0 <= k < map.len() ==> Some((#[trigger] map[k]).0) != raw_attr(tag, "r:id"@))
            ==> docx_url(tag, map).len() == 0,
        raw_attr(tag, "r:id"@) is None && raw_attr(tag, "w:anchor"@) is Some ==> docx_url(
            tag,
            map,
        ) == "#"@ + raw_attr(tag, "w:anchor"@)->0,
{
    if let Some(rid) = raw_attr(tag, "r:id"@) {
        lemma_last_pair(map, rid, map.len());
    }
}

proof fn lemma_last_pair(map: Seq<(Seq<char>, Seq<char>)>, rid: Seq<char>, n: nat)
    requires
        n <= map.len(),
    ensures
        forall|i: int|
            0 <= i < n && (#[trigger] map[i]).0 == rid && (forall|k: int|
                i < k < n ==> (#[trigger] map[k]).0 != rid) ==> last_pair(map, rid, n) == Some(
                map[i].1,
            ),
        (forall|k: int| 0 <= k < n ==> (#[trigger] map[k]).0 != rid) ==> last_pair(
            map,
            rid,
            n,
        ) is None,
    decreases n,
{
    if n > 0 {
        lemma_last_pair(map, rid, (n - 1) as nat);
    }
}

} // verus!
