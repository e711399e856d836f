//! OpenDocument spreadsheets: the sheets that `content.xml` describes.

use crate::container::{read_zip_entry, zip_entry};
use crate::deep::push_deep;
use crate::formats::{Sheet, SheetView};
use crate::grid::{Rows, RowsView};
use crate::text::{chars_of, copy_text, parse_nat, parse_u64_at, same};
use crate::value::{Json, Value};
use crate::xml::{
    attr, event_text, events_say_their_text, opt_text, push_event_text, raw_attr, said, said_by,
    xml_events, xml_items, EventView, Tag, TagView, XmlEvent,
};
use vstd::prelude::*;

verus! {

/// Whether an element is a cell.
pub open spec fn is_cell(name: Seq<char>) -> bool {
    name == "table:table-cell"@ || name == "table:covered-table-cell"@
}

fn names_cell(name: &str) -> (r: bool)
    ensures
        r == is_cell(name@),
{
    same(name, "table:table-cell") || same(name, "table:covered-table-cell")
}

/// The text of the number that a cell declares, where its type is that of a number.
pub open spec fn declared_number(t: TagView) -> Option<Seq<char>> {
    let kind = raw_attr(t, "office:value-type"@);
    if is_cell(t.name) && (kind == Some("float"@) || kind == Some("percentage"@) || kind == Some(
        "currency"@,
    )) {
        raw_attr(t, "office:value"@)
    } else {
        None
    }
}

/// The text of the number that a cell declares.
pub fn cell_float_of(t: &Tag) -> (r: Option<String>)
    ensures
        opt_text(r) == declared_number(t.deep_view()),
{
    if !names_cell(t.name.as_str()) {
        return None;
    }
    let numeric = match attr(t, "office:value-type") {
        Some(k) => same(k, "float") || same(k, "percentage") || same(k, "currency"),
        None => false,
    };
    if !numeric {
        return None;
    }
    match attr(t, "office:value") {
        Some(s) => Some(copy_text(s)),
        None => None,
    }
}

/// How often a cell is repeated: once unless it says otherwise.
pub open spec fn repeats(t: TagView) -> nat {
    match raw_attr(t, "table:number-columns-repeated"@) {
        Some(s) => match parse_nat(s, usize::MAX as nat) {
            Some(n) => n,
            None => 1,
        },
        None => 1,
    }
}

fn read_repeats(t: &Tag) -> (r: usize)
    ensures
        r == repeats(t.deep_view()),
{
    match attr(t, "table:number-columns-repeated") {
        Some(s) => {
            let cs = chars_of(s);
            assert(cs@.subrange(0, cs@.len() as int) =~= s@);
            match parse_u64_at(&cs, 0, cs.len()) {
                Some(v) => if v <= usize::MAX as u64 {
                    v as usize
                } else {
                    1
                },
                None => 1,
            }
        },
        None => 1,
    }
}

/// What a cell holds: its number, nothing, or its text.
pub open spec fn cell_content(text: Seq<char>, reading: Option<Json>) -> Json {
    match reading {
        Some(v) => v,
        None => if text.len() == 0 {
            Json::Null
        } else {
            Json::Text(text)
        },
    }
}

/// A row with a cell at its end, as often as it is repeated but at most 4096 times.
pub open spec fn with_cells(row: Seq<Json>, v: Json, times: nat) -> Seq<Json> {
    let n = if times < 4096 {
        times
    } else {
        4096
    };
    row + Seq::new(n, |i: int| v)
}

/// A row without the nulls at its end.
pub open spec fn without_nulls(row: Seq<Json>) -> Seq<Json>
    decreases row.len(),
{
    if row.len() > 0 && row.last() is Null {
        without_nulls(row.drop_last())
    } else {
        row
    }
}

/// Rows without the empty ones at their end.
pub open spec fn without_empty_rows(rows: RowsView) -> RowsView
    decreases rows.len(),
{
    if rows.len() > 0 && rows.last().len() == 0 {
        without_empty_rows(rows.drop_last())
    } else {
        rows
    }
}

/// What has been read so far.
#[verifier::ext_equal]
pub struct OdsView {
    pub sheets: Seq<SheetView>,
    pub name: Seq<char>,
    pub rows: RowsView,
    pub row: Seq<Json>,
    pub in_cell: bool,
    pub text: Seq<char>,
    pub repeat: nat,
    pub reading: Option<Json>,
}

struct OdsState {
    sheets: Vec<Sheet>,
    name: String,
    rows: Rows,
    row: Vec<Value>,
    in_cell: bool,
    text: String,
    repeat: usize,
    reading: Option<Value>,
}

impl View for OdsState {
    type V = OdsView;

    closed spec fn view(&self) -> OdsView {
        OdsView {
            sheets: self.sheets.deep_view(),
            name: self.name@,
            rows: self.rows.deep_view(),
            row: self.row.deep_view(),
            in_cell: self.in_cell,
            text: self.text@,
            repeat: self.repeat as nat,
            reading: match self.reading {
                Some(v) => Some(v.deep_view()),
                None => None,
            },
        }
    }
}

pub open spec fn nothing_read() -> OdsView {
    OdsView {
        sheets: Seq::empty(),
        name: Seq::empty(),
        rows: Seq::empty(),
        row: Seq::empty(),
        in_cell: false,
        text: Seq::empty(),
        repeat: 1,
        reading: None,
    }
}

/// What a start tag adds.
pub open spec fn at_start(st: OdsView, t: TagView, reading: Option<Json>) -> OdsView {
    if t.name == "table:table"@ {
        OdsView {
            name: match raw_attr(t, "table:name"@) {
                Some(n) => n,
                None => Seq::empty(),
            },
            rows: Seq::empty(),
            ..st
        }
    } else if t.name == "table:table-row"@ {
        OdsView { row: Seq::empty(), ..st }
    } else if is_cell(t.name) {
        OdsView { in_cell: true, text: Seq::empty(), repeat: repeats(t), reading, ..st }
    } else {
        st
    }
}

/// What an end tag adds.
pub open spec fn at_end(st: OdsView, name: Seq<char>) -> OdsView {
    if is_cell(name) {
        OdsView {
            in_cell: false,
            row: with_cells(st.row, cell_content(st.text, st.reading), st.repeat),
            ..st
        }
    } else if name == "table:table-row"@ {
        OdsView { rows: st.rows.push(without_nulls(st.row)), row: Seq::empty(), ..st }
    } else if name == "table:table"@ {
        OdsView {
            sheets: st.sheets.push((st.name, without_empty_rows(st.rows))),
            rows: Seq::empty(),
            ..st
        }
    } else {
        st
    }
}

/// What an event adds; `reading` is the number that was read of a cell's declaration.
pub open spec fn ods_step(st: OdsView, ev: EventView, reading: Option<Json>) -> OdsView {
    match ev {
        EventView::Start(t) => at_start(st, t, reading),
        EventView::Empty(t) => if is_cell(t.name) {
            OdsView {
                row: with_cells(st.row, cell_content(Seq::empty(), reading), repeats(t)),
                ..st
            }
        } else {
            st
        },
        EventView::End(name) => at_end(st, name),
        EventView::Text(_) | EventView::Reference(_, _) => if st.in_cell {
            OdsView { text: st.text + event_text(ev), ..st }
        } else {
            st
        },
        EventView::Other => st,
    }
}

/// The reading of event `i`, where there is one.
pub open spec fn reading_of(readings: Seq<Option<Json>>, i: int) -> Option<Json> {
    if 0 <= i < readings.len() {
        readings[i]
    } else {
        None
    }
}

/// What the first `n` events add up to.
pub open spec fn ods_read(events: Seq<EventView>, readings: Seq<Option<Json>>, n: nat) -> OdsView
    decreases n,
{
    if n == 0 || n > events.len() {
        nothing_read()
    } else {
        ods_step(
            ods_read(events, readings, (n - 1) as nat),
            events[n - 1],
            reading_of(readings, n - 1),
        )
    }
}

fn copy_reading(readings: &Vec<Option<Value>>, i: usize) -> (r: Option<Value>)
    ensures
        (match r {
            Some(v) => Some(v.deep_view()),
            None => None,
        }) == reading_of(crate::columns::opt_jsons(readings@), i as int),
{
    if i < readings.len() {
        match &readings[i] {
            Some(v) => Some(v.dup()),
            None => None,
        }
    } else {
        None
    }
}

fn push_cells(row: &mut Vec<Value>, text: &str, reading: &Option<Value>, times: usize)
    ensures
        final(row).deep_view() == with_cells(
            old(row).deep_view(),
            cell_content(
                text@,
                match *reading {
                    Some(v) => Some(v.deep_view()),
                    None => None,
                },
            ),
            times as nat,
        ),
{
    let v = match reading {
        Some(x) => x.dup(),
        None => if chars_of(text).len() == 0 {
            Value::Null
        } else {
            Value::Text(copy_text(text))
        },
    };
    let n: usize = if times < 4096 {
        times
    } else {
        4096
    };
    let ghost before = row.deep_view();
    let ghost vv = v.deep_view();
    let mut i: usize = 0;
    assert(row.deep_view() =~= before + Seq::new(0, |k: int| vv));
    while i < n
        invariant
            i <= n,
            vv == v.deep_view(),
            row.deep_view() == before + Seq::new(i as nat, |k: int| vv),
        decreases n - i,
    {
        push_deep(row, v.dup());
        i = i + 1;
        assert(row.deep_view() =~= before + Seq::new(i as nat, |k: int| vv));
    }
    assert(row.deep_view() =~= with_cells(before, vv, times as nat));
}

fn drop_nulls(row: Vec<Value>) -> (r: Vec<Value>)
    ensures
        r.deep_view() == without_nulls(row.deep_view()),
{
    let mut out = row;
    let ghost all = without_nulls(out.deep_view());
    while out.len() > 0 && out[out.len() - 1].is_null()
        invariant
            without_nulls(out.deep_view()) == all,
        decreases out@.len(),
    {
        let ghost was = out.deep_view();
        assert(was.last() == out@[out@.len() - 1].deep_view());
        out.pop();
        assert(out.deep_view() =~= was.drop_last());
    }
    assert(out.deep_view().len() == out@.len());
    if out.len() > 0 {
        assert(out.deep_view().last() == out@[out@.len() - 1].deep_view());
    }
    out
}

fn drop_empty_rows(rows: Rows) -> (r: Rows)
    ensures
        r.deep_view() == without_empty_rows(rows.deep_view()),
{
    let mut out = rows;
    let ghost all = without_empty_rows(out.deep_view());
    while out.len() > 0 && out[out.len() - 1].len() == 0
        invariant
            without_empty_rows(out.deep_view()) == all,
        decreases out@.len(),
    {
        let ghost was = out.deep_view();
        assert(was.last() == out@[out@.len() - 1].deep_view());
        out.pop();
        assert(out.deep_view() =~= was.drop_last());
    }
    assert(out.deep_view().len() == out@.len());
    if out.len() > 0 {
        assert(out.deep_view().last() == out@[out@.len() - 1].deep_view());
    }
    out
}

fn take_start(st: OdsState, t: &Tag, reading: Option<Value>) -> (r: OdsState)
    ensures
        r@ == at_start(
            st@,
            t.deep_view(),
            match reading {
                Some(v) => Some(v.deep_view()),
                None => None,
            },
        ),
{
    let mut st = st;
    let name = t.name.as_str();
    if same(name, "table:table") {
        st.name =
        match attr(t, "table:name") {
            Some(n) => copy_text(n),
            None => String::new(),
        };
        st.rows = Vec::new();
        assert(st.rows.deep_view() =~= Seq::<Seq<Json>>::empty());
    } else if same(name, "table:table-row") {
        st.row = Vec::new();
        assert(st.row.deep_view() =~= Seq::<Json>::empty());
    } else if names_cell(name) {
        st.in_cell = true;
        st.text = String::new();
        st.repeat = read_repeats(t);
        st.reading = reading;
    }
    st
}

fn take_end(st: OdsState, name: &str) -> (r: OdsState)
    ensures
        r@ == at_end(st@, name@),
{
    let mut st = st;
    if names_cell(name) {
        st.in_cell = false;
        push_cells(&mut st.row, st.text.as_str(), &st.reading, st.repeat);
        st
    } else if same(name, "table:table-row") {
        let row = drop_nulls(st.row);
        st.row = Vec::new();
        assert(st.row.deep_view() =~= Seq::<Json>::empty());
        push_deep(&mut st.rows, row);
        st
    } else if same(name, "table:table") {
        let sheet = (st.name.clone(), drop_empty_rows(st.rows));
        st.rows = Vec::new();
        assert(st.rows.deep_view() =~= Seq::<Seq<Json>>::empty());
        let ghost item = (sheet.0@, sheet.1.deep_view());
        assert(sheet.deep_view() == item);
        push_deep(&mut st.sheets, sheet);
        st
    } else {
        st
    }
}

fn take_event(st: OdsState, ev: &XmlEvent, reading: Option<Value>) -> (r: OdsState)
    ensures
        r@ == ods_step(
            st@,
            ev.deep_view(),
            match reading {
                Some(v) => Some(v.deep_view()),
                None => None,
            },
        ),
{
    match ev {
        XmlEvent::Start(t) => take_start(st, t, reading),
        XmlEvent::Empty(t) => {
            let mut st = st;
            if names_cell(t.name.as_str()) {
                push_cells(&mut st.row, "", &reading, read_repeats(t));
                proof {
                    reveal_strlit("");
                    assert(""@ =~= Seq::<char>::empty());
                }
            }
            st
        },
        XmlEvent::End(n) => take_end(st, n.as_str()),
        XmlEvent::Text(_) => {
            let mut st = st;
            if st.in_cell {
                push_event_text(&mut st.text, ev);
            }
            st
        },
        XmlEvent::Reference(_, _) => {
            let mut st = st;
            if st.in_cell {
                push_event_text(&mut st.text, ev);
            }
            st
        },
        XmlEvent::Other => st,
    }
}

/// The sheets that the events of a `content.xml` describe, with the numbers that were
/// read of the declarations of cells.
pub fn collect_sheets(events: &Vec<XmlEvent>, readings: &Vec<Option<Value>>) -> (r: Vec<Sheet>)
    ensures
        r.deep_view() == ods_read(
            events.deep_view(),
            crate::columns::opt_jsons(readings@),
            events@.len(),
        ).sheets,
{
    let ghost ev = events.deep_view();
    let ghost rv = crate::columns::opt_jsons(readings@);
    assert(ev.len() == events@.len());
    let mut st = OdsState {
        sheets: Vec::new(),
        name: String::new(),
        rows: Vec::new(),
        row: Vec::new(),
        in_cell: false,
        text: String::new(),
        repeat: 1,
        reading: None,
    };
    assert(st@ =~= nothing_read());
    let mut i: usize = 0;
    while i < events.len()
        invariant
            i <= events@.len(),
            ev == events.deep_view(),
            ev.len() == events@.len(),
            rv == crate::columns::opt_jsons(readings@),
            st@ == ods_read(ev, rv, i as nat),
        decreases events@.len() - i,
    {
        assert(ev[i as int] == events@[i as int].deep_view());
        st = take_event(st, &events[i], copy_reading(readings, i));
        i = i + 1;
    }
    st.sheets
}

/// The events of an OpenDocument archive's `content.xml`, or why there are none.
pub open spec fn content_events(archive: Seq<u8>) -> Result<Seq<EventView>, Seq<char>> {
    match zip_entry(archive, "content.xml"@) {
        Ok(xml) => Ok(xml_items(xml, true)),
        Err(e) => Err(e),
    }
}

/// The events of a spreadsheet archive, and for each the text of the number that it
/// declares; once these are read as numbers, [`collect_sheets`] gives the sheets.
pub fn read_ods(archive: &Vec<u8>) -> (r: Result<(Vec<XmlEvent>, Vec<Option<String>>), String>)
    ensures
        match (r, content_events(archive@)) {
            (Ok(p), Ok(events)) => {
                &&& p.0.deep_view() == events
                &&& p.1@.len() == events.len()
                &&& forall|i: int|
                    0 <= i < events.len() ==> opt_text(#[trigger] p.1@[i]) == match events[i] {
                        EventView::Start(t) | EventView::Empty(t) => declared_number(t),
                        _ => None,
                    }
            },
            (Err(e), Err(m)) => e@ == m,
            _ => false,
        },
{
    let xml = match read_zip_entry(archive, "content.xml") {
        Ok(x) => x,
        Err(e) => {
            return Err(e);
        },
    };
    let events = xml_events(xml.as_slice(), true);
    let ghost ev = events.deep_view();
    assert(ev.len() == events@.len());
    let mut texts: Vec<Option<String>> = Vec::new();
    let mut i: usize = 0;
    while i < events.len()
        invariant
            i <= events@.len(),
            ev == events.deep_view(),
            ev.len() == events@.len(),
            texts@.len() == i,
            forall|k: int|
                0 <= k < i ==> opt_text(#[trigger] texts@[k]) == match ev[k] {
                    EventView::Start(t) | EventView::Empty(t) => declared_number(t),
                    _ => None,
                },
        decreases events@.len() - i,
    {
        assert(ev[i as int] == events@[i as int].deep_view());
        let t = match &events[i] {
            XmlEvent::Start(t) => cell_float_of(t),
            XmlEvent::Empty(t) => cell_float_of(t),
            _ => None,
        };
        texts.push(t);
        i = i + 1;
    }
    Ok((events, texts))
}

// ── what a sheet is written as ──────────────────────────────────────────────

/// An event with the number that is read of it.
pub type Read = (EventView, Option<Json>);

/// A cell as it is written: its tag, what is said in it, and the number that is read of it; a
/// closed one says nothing.
pub struct OdsCell {
    pub tag: TagView,
    pub inside: Seq<EventView>,
    pub reading: Option<Json>,
    pub closed: bool,
}

/// Whether events only say something.
pub open spec fn are_words(evs: Seq<EventView>) -> bool {
    forall|i: int|
        0 <= i < evs.len() ==> #[trigger] evs[i] is Text || evs[i] is Reference
}

pub open spec fn is_written_cell(c: OdsCell) -> bool {
    &&& c.tag.name == "table:table-cell"@ || c.tag.name == "table:covered-table-cell"@
    &&& are_words(c.inside)
    &&& c.closed ==> c.inside.len() == 0
}

pub open spec fn cell_events(c: OdsCell) -> Seq<Read> {
    if c.closed {
        seq![(EventView::Empty(c.tag), c.reading)]
    } else {
        seq![(EventView::Start(c.tag), c.reading)] + Seq::new(
            c.inside.len(),
            |i: int| (c.inside[i], None::<Json>),
        ) + seq![(EventView::End(c.tag.name), None::<Json>)]
    }
}

/// What a cell holds, as often as it is repeated.
pub open spec fn cell_values(c: OdsCell) -> Seq<Json> {
    let times = match raw_attr(c.tag, "table:number-columns-repeated"@) {
        Some(s) => match parse_nat(s, usize::MAX as nat) {
            Some(n) => n,
            None => 1,
        },
        None => 1,
    };
    Seq::new(
        if times > 4096 {
            4096
        } else {
            times
        },
        |i: int|
            match c.reading {
                Some(v) => v,
                None => if said(c.inside) == Seq::<char>::empty() {
                    Json::Null
                } else {
                    Json::Text(said(c.inside))
                },
            },
    )
}

pub open spec fn row_inside(cells: Seq<OdsCell>) -> Seq<Read>
    decreases cells.len(),
{
    if cells.len() == 0 {
        Seq::empty()
    } else {
        row_inside(cells.drop_last()) + cell_events(cells.last())
    }
}

pub open spec fn row_values(cells: Seq<OdsCell>) -> Seq<Json>
    decreases cells.len(),
{
    if cells.len() == 0 {
        Seq::empty()
    } else {
        row_values(cells.drop_last()) + cell_values(cells.last())
    }
}

pub open spec fn row_events(row: (TagView, Seq<OdsCell>)) -> Seq<Read> {
    seq![(EventView::Start(row.0), None::<Json>)] + row_inside(row.1) + seq![
        (EventView::End(row.0.name), None::<Json>),
    ]
}

pub open spec fn is_written_row(row: (TagView, Seq<OdsCell>)) -> bool {
    &&& row.0.name == "table:table-row"@
    &&& forall|j: int| 0 <= j < row.1.len() ==> is_written_cell(#[trigger] row.1[j])
}

pub open spec fn rows_inside(rows: Seq<(TagView, Seq<OdsCell>)>) -> Seq<Read>
    decreases rows.len(),
{
    if rows.len() == 0 {
        Seq::empty()
    } else {
        rows_inside(rows.drop_last()) + row_events(rows.last())
    }
}

/// A table as it is written.
pub open spec fn table_events(tag: TagView, rows: Seq<(TagView, Seq<OdsCell>)>) -> Seq<Read> {
    seq![(EventView::Start(tag), None::<Json>)] + rows_inside(rows) + seq![
        (EventView::End(tag.name), None::<Json>),
    ]
}

/// What events add to what was read before.
pub open spec fn read_on(st: OdsView, items: Seq<Read>) -> OdsView
    decreases items.len(),
{
    if items.len() == 0 {
        st
    } else {
        ods_step(read_on(st, items.drop_last()), items.last().0, items.last().1)
    }
}

proof fn lemma_read_on(st: OdsView, a: Seq<Read>, b: Seq<Read>)
    ensures
        read_on(st, a + b) == read_on(read_on(st, a), b),
    decreases b.len(),
{
    if b.len() == 0 {
        assert(a + b =~= a);
    } else {
        lemma_read_on(st, a, b.drop_last());
        assert((a + b).drop_last() =~= a + b.drop_last());
        assert((a + b).last() == b.last());
    }
}

proof fn lemma_read_one(st: OdsView, e: Read)
    ensures
        read_on(st, seq![e]) == ods_step(st, e.0, e.1),
{
    assert(seq![e].drop_last() =~= Seq::<Read>::empty());
    assert(read_on(st, Seq::<Read>::empty()) == st);
    assert(seq![e].last() == e);
}

proof fn lemma_ods_names()
    ensures
        "table:table"@ != "table:table-row"@,
        "table:table"@ != "table:table-cell"@,
        "table:table"@ != "table:covered-table-cell"@,
        "table:table-row"@ != "table:table-cell"@,
        "table:table-row"@ != "table:covered-table-cell"@,
{
    reveal_strlit("table:table");
    reveal_strlit("table:table-row");
    reveal_strlit("table:table-cell");
    reveal_strlit("table:covered-table-cell");
    assert("table:table"@.len() == 11);
    assert("table:table-row"@.len() == 15);
    assert("table:table-cell"@.len() == 16);
    assert("table:covered-table-cell"@.len() == 24);
}

proof fn lemma_words_read(st: OdsView, inside: Seq<EventView>)
    requires
        st.in_cell,
        are_words(inside),
    ensures
        read_on(st, Seq::new(inside.len(), |i: int| (inside[i], None::<Json>))) == (OdsView {
            text: st.text + said(inside),
            ..st
        }),
    decreases inside.len(),
{
    let items = Seq::new(inside.len(), |i: int| (inside[i], None::<Json>));
    if inside.len() == 0 {
        assert(st.text + said(inside) =~= st.text);
    } else {
        let front = inside.drop_last();
        assert forall|i: int| 0 <= i < front.len() implies #[trigger] front[i] is Text
            || front[i] is Reference by {
            assert(front[i] == inside[i]);
        }
        lemma_words_read(st, front);
        assert(items.drop_last() =~= Seq::new(front.len(), |i: int| (front[i], None::<Json>)));
        let ev = inside.last();
        assert(ev == inside[inside.len() - 1]);
        events_say_their_text(ev);
        assert(st.text + said(front) + said_by(ev) =~= st.text + said(inside));
    }
}

proof fn lemma_cell_read(st: OdsView, c: OdsCell)
    requires
        is_written_cell(c),
        !st.in_cell,
    ensures
        ({
            let now = read_on(st, cell_events(c));
            &&& now.row == st.row + cell_values(c)
            &&& now.rows == st.rows
            &&& now.sheets == st.sheets
            &&& now.name == st.name
            &&& !now.in_cell
        }),
{
    lemma_ods_names();
    if said(c.inside).len() == 0 {
        assert(said(c.inside) =~= Seq::<char>::empty());
    }
    if c.closed {
        lemma_read_one(st, (EventView::Empty(c.tag), c.reading));
        assert(said(c.inside) =~= Seq::<char>::empty());
        assert(read_on(st, cell_events(c)).row =~= st.row + cell_values(c));
    } else {
        let a = seq![(EventView::Start(c.tag), c.reading)];
        let b = Seq::new(c.inside.len(), |i: int| (c.inside[i], None::<Json>));
        let e = seq![(EventView::End(c.tag.name), None::<Json>)];
        lemma_read_on(st, a + b, e);
        lemma_read_on(st, a, b);
        lemma_read_one(st, a[0]);
        let one = read_on(st, a);
        lemma_words_read(one, c.inside);
        let two = read_on(one, b);
        assert(two.text =~= said(c.inside));
        lemma_read_one(two, e[0]);
        assert(read_on(st, cell_events(c)).row =~= st.row + cell_values(c));
    }
}

proof fn lemma_row_inside(st: OdsView, cells: Seq<OdsCell>)
    requires
        forall|j: int| 0 <= j < cells.len() ==> is_written_cell(#[trigger] cells[j]),
        !st.in_cell,
    ensures
        ({
            let now = read_on(st, row_inside(cells));
            &&& now.row == st.row + row_values(cells)
            &&& now.rows == st.rows
            &&& now.sheets == st.sheets
            &&& now.name == st.name
            &&& !now.in_cell
        }),
    decreases cells.len(),
{
    if cells.len() == 0 {
        assert(st.row + row_values(cells) =~= st.row);
    } else {
        let front = cells.drop_last();
        assert forall|j: int| 0 <= j < front.len() implies is_written_cell(#[trigger] front[j]) by {
            assert(front[j] == cells[j]);
        }
        lemma_row_inside(st, front);
        lemma_read_on(st, row_inside(front), cell_events(cells.last()));
        lemma_cell_read(read_on(st, row_inside(front)), cells.last());
        assert(st.row + row_values(front) + cell_values(cells.last()) =~= st.row + row_values(
            cells,
        ));
    }
}

proof fn lemma_rows_inside(st: OdsView, rows: Seq<(TagView, Seq<OdsCell>)>)
    requires
        forall|i: int| 0 <= i < rows.len() ==> is_written_row(#[trigger] rows[i]),
        !st.in_cell,
    ensures
        ({
            let now = read_on(st, rows_inside(rows));
            &&& now.rows == st.rows + Seq::new(
                rows.len(),
                |i: int| without_nulls(row_values(rows[i].1)),
            )
            &&& now.sheets == st.sheets
            &&& now.name == st.name
            &&& !now.in_cell
        }),
    decreases rows.len(),
{
    lemma_ods_names();
    let held = Seq::new(rows.len(), |i: int| without_nulls(row_values(rows[i].1)));
    if rows.len() == 0 {
        assert(st.rows + held =~= st.rows);
    } else {
        let front = rows.drop_last();
        assert forall|i: int| 0 <= i < front.len() implies is_written_row(#[trigger] front[i]) by {
            assert(front[i] == rows[i]);
        }
        lemma_rows_inside(st, front);
        let before = read_on(st, rows_inside(front));
        let row = rows.last();
        assert(row == rows[rows.len() - 1]);
        assert(is_written_row(row));
        lemma_read_on(st, rows_inside(front), row_events(row));
        let a = seq![(EventView::Start(row.0), None::<Json>)];
        let e = seq![(EventView::End(row.0.name), None::<Json>)];
        lemma_read_on(before, a + row_inside(row.1), e);
        lemma_read_on(before, a, row_inside(row.1));
        lemma_read_one(before, a[0]);
        let one = read_on(before, a);
        lemma_row_inside(one, row.1);
        let two = read_on(one, row_inside(row.1));
        assert(two.row =~= row_values(row.1));
        lemma_read_one(two, e[0]);
        assert(read_on(st, rows_inside(rows)).rows =~= st.rows + held);
    }
}

/// A table that is written is read as a sheet of its name, with a row for each row, which holds
/// what each cell declares or says as often as it is repeated; cells that hold nothing at the
/// end of a row and rows without cells at the end of a table are left out.
pub proof fn tables_are_read_as_written(
    st: OdsView,
    tag: TagView,
    rows: Seq<(TagView, Seq<OdsCell>)>,
)
    requires
        !st.in_cell,
        tag.name == "table:table"@,
        forall|i: int| 0 <= i < rows.len() ==> is_written_row(#[trigger] rows[i]),
    ensures
        read_on(st, table_events(tag, rows)).sheets == st.sheets.push(
            (
                match raw_attr(tag, "table:name"@) {
                    Some(n) => n,
                    None => Seq::empty(),
                },
                without_empty_rows(
                    Seq::new(rows.len(), |i: int| without_nulls(row_values(rows[i].1))),
                ),
            ),
        ),
        !read_on(st, table_events(tag, rows)).in_cell,
{
    lemma_ods_names();
    let a = seq![(EventView::Start(tag), None::<Json>)];
    let e = seq![(EventView::End(tag.name), None::<Json>)];
    lemma_read_on(st, a + rows_inside(rows), e);
    lemma_read_on(st, a, rows_inside(rows));
    lemma_read_one(st, a[0]);
    let one = read_on(st, a);
    lemma_rows_inside(one, rows);
    let two = read_on(one, rows_inside(rows));
    lemma_read_one(two, e[0]);
    assert(two.rows =~= Seq::new(rows.len(), |i: int| without_nulls(row_values(rows[i].1))));
}

/// Reading events one after the other is reading them with their numbers.
pub proof fn events_are_read_in_turn(events: Seq<EventView>, readings: Seq<Option<Json>>, n: nat)
    requires
        n <= events.len(),
        events.len() == readings.len(),
    ensures
        ods_read(events, readings, n) == read_on(
            nothing_read(),
            Seq::new(n, |i: int| (events[i], readings[i])),
        ),
    decreases n,
{
    if n > 0 {
        events_are_read_in_turn(events, readings, (n - 1) as nat);
        let items = Seq::new(n, |i: int| (events[i], readings[i]));
        assert(items.drop_last() =~= Seq::new((n - 1) as nat, |i: int| (events[i], readings[i])));
    }
}

/// What is cut off at the end of a row is nulls, and no null is left there; what is cut off at
/// the end of rows is empty rows, and none is left there.
pub proof fn ends_are_cut_off(row: Seq<Json>, rows: RowsView)
    ensures
        without_nulls(row).len() <= row.len(),
        without_nulls(row) == row.take(without_nulls(row).len() as int),
        forall|i: int|
            without_nulls(row).len() <= i < row.len() ==> #[trigger] row[i] is Null,
        without_nulls(row).len() > 0 ==> !(without_nulls(row).last() is Null),
        without_empty_rows(rows).len() <= rows.len(),
        without_empty_rows(rows) == rows.take(without_empty_rows(rows).len() as int),
        forall|i: int|
            without_empty_rows(rows).len() <= i < rows.len() ==> (#[trigger] rows[i]).len() == 0,
        without_empty_rows(rows).len() > 0 ==> without_empty_rows(rows).last().len() > 0,
    decreases row.len() + rows.len(),
{
    if row.len() > 0 && row.last() is Null {
        ends_are_cut_off(row.drop_last(), rows);
        let k = without_nulls(row).len() as int;
        assert(row.take(k) =~= row.drop_last().take(k));
        assert forall|i: int| k <= i < row.len() implies #[trigger] row[i] is Null by {
            if i < row.len() - 1 {
                assert(row.drop_last()[i] == row[i]);
            }
        }
    } else {
        assert(row.take(row.len() as int) =~= row);
        if rows.len() > 0 && rows.last().len() == 0 {
            ends_are_cut_off(row, rows.drop_last());
            let k = without_empty_rows(rows).len() as int;
            assert(rows.take(k) =~= rows.drop_last().take(k));
            assert forall|i: int| k <= i < rows.len() implies (#[trigger] rows[i]).len() == 0 by {
                if i < rows.len() - 1 {
                    assert(rows.drop_last()[i] == rows[i]);
                }
            }
        } else {
            assert(rows.take(rows.len() as int) =~= rows);
        }
    }
}

/// A number is declared by just the cells whose type is that of a number, a share or an amount
/// of money, and is the value that they give.
pub proof fn numbers_are_declared_by_type(t: TagView, kind: Seq<char>)
    requires
        t.name == "table:table-cell"@,
        raw_attr(t, "office:value-type"@) == Some(kind),
    ensures
        kind == "float"@ || kind == "percentage"@ || kind == "currency"@ ==> declared_number(t)
            == raw_attr(t, "office:value"@),
        kind != "float"@ && kind != "percentage"@ && kind != "currency"@ ==> declared_number(
            t,
        ) is None,
{
}

} // verus!
