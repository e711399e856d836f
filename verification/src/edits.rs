//! Edits of a spreadsheet by references and row numbers, and what is read from one.

use crate::columns::{column_label, column_numbers, label_of_column, numbers_in};
use crate::deep::push_deep;
use crate::formats::{Sheet, SheetView};
use crate::grid::{
    at_least_one, cell_ref, choose_sheet, chosen, data_start, delete_rows, first_data_row, get_cell,
    get_range, has_header, header_flag, held, insert_column, insert_rows, max2, min2, need_a1,
    parse_range, range_cells, range_ends, read_cell, set_block, set_cell, set_rows, sheet_by,
    sheet_target_index, with_blank_rows, with_block, with_cell, with_column, with_rows,
    without_rows, Rows, RowsView,
};
use crate::groups::{column_readings, readings};
use crate::ordering::{num_key_order, nums_view, Nums};
use crate::paths::{ext_of, extension};
use crate::sorting::is_sorted_copy;
use crate::stats::sort_numbers_up;
use crate::text::{chars_of, copy_text, same};
use crate::value::{
    add_member, as_array, as_text, as_u64, field, flag_at, object, opt_flag, req_str, required_text,
    text_value, Json, Num, Number, Value,
};
use vstd::prelude::*;

verus! {

pub open spec fn res_sheets(r: Result<Vec<Sheet>, String>) -> Result<Seq<SheetView>, Seq<char>> {
    match r {
        Ok(v) => Ok(v.deep_view()),
        Err(e) => Err(e@),
    }
}

/// A value under a key; null where there is none.
pub open spec fn value_or_null(opts: Json, key: Seq<char>) -> Json {
    match field(opts, key) {
        Some(v) => v,
        None => Json::Null,
    }
}

fn read_value(opts: &Value, key: &str) -> (r: Value)
    ensures
        r.deep_view() == value_or_null(opts.deep_view(), key@),
{
    match opts.get(key) {
        Some(v) => v.dup(),
        None => Value::Null,
    }
}

// ── cells ───────────────────────────────────────────────────────────────────

/// The reference that is asked for, or the complaint about it.
pub open spec fn wanted_cell(opts: Json) -> Result<(int, int), Seq<char>> {
    match required_text(opts, "cell"@) {
        Ok(cell) => match cell_ref(cell) {
            Some(p) => Ok(p),
            None => Err("bad A1 reference: "@ + cell),
        },
        Err(e) => Err(e),
    }
}

fn read_wanted_cell(opts: &Value) -> (r: Result<(usize, usize), String>)
    ensures
        match r {
            Ok(p) => wanted_cell(opts.deep_view()) == Ok::<(int, int), Seq<char>>(
                (p.0 as int, p.1 as int),
            ) && p.0 < usize::MAX && p.1 < usize::MAX,
            Err(e) => wanted_cell(opts.deep_view()) == Err::<(int, int), Seq<char>>(e@),
        },
{
    match req_str(opts, "cell") {
        Ok(cell) => need_a1(cell),
        Err(e) => Err(e),
    }
}

/// The sheets with the rows of the chosen one changed, or the complaint that there is no
/// such sheet.
pub open spec fn with_chosen(
    opts: Json,
    sheets: Seq<SheetView>,
    f: spec_fn(RowsView) -> RowsView,
) -> Result<Seq<SheetView>, Seq<char>> {
    let all = at_least_one(sheets);
    match chosen(opts, all) {
        Some(t) => Ok(with_rows(all, t, f(all[t].1))),
        None => Err("sheet not found"@),
    }
}

/// The sheets with one cell set.
pub open spec fn after_set_cell(opts: Json, sheets: Seq<SheetView>) -> Result<
    Seq<SheetView>,
    Seq<char>,
> {
    match wanted_cell(opts) {
        Ok(p) => with_chosen(
            opts,
            sheets,
            |rows: RowsView| with_cell(rows, p.0, p.1, value_or_null(opts, "value"@)),
        ),
        Err(e) => Err(e),
    }
}

/// Sets the cell that a reference names.
pub fn op_sheet_set_cell(opts: &Value, sheets: Vec<Sheet>) -> (r: Result<Vec<Sheet>, String>)
    ensures
        res_sheets(r) == after_set_cell(opts.deep_view(), sheets.deep_view()),
{
    let p = match read_wanted_cell(opts) {
        Ok(p) => p,
        Err(e) => {
            return Err(e);
        },
    };
    let mut all = sheets;
    match sheet_target_index(opts, &mut all) {
        Ok(t) => {
            assert(all.deep_view()[t as int] == all@[t as int].deep_view());
            let mut rows = crate::grid::copy_rows(&all[t].1);
            set_cell(&mut rows, p.0, p.1, read_value(opts, "value"));
            set_rows(&mut all, t, rows);
            Ok(all)
        },
        Err(e) => Err(e),
    }
}

/// The cell that a reference names, with its row and column.
pub open spec fn found_cell(opts: Json, sheets: Seq<SheetView>) -> Result<
    (int, int, Json),
    Seq<char>,
> {
    match wanted_cell(opts) {
        Ok(p) => match chosen(opts, sheets) {
            Some(t) => Ok((p.0, p.1, read_cell(sheets[t].1, p.0, p.1))),
            None => Err("sheet not found"@),
        },
        Err(e) => Err(e),
    }
}

/// Reads the cell that a reference names.
pub fn op_sheet_get_cell(opts: &Value, sheets: &Vec<Sheet>) -> (r: Result<
    (usize, usize, Value),
    String,
>)
    ensures
        match r {
            Ok(c) => found_cell(opts.deep_view(), sheets.deep_view()) == Ok::<
                (int, int, Json),
                Seq<char>,
            >((c.0 as int, c.1 as int, c.2.deep_view())),
            Err(e) => found_cell(opts.deep_view(), sheets.deep_view()) == Err::<
                (int, int, Json),
                Seq<char>,
            >(e@),
        },
{
    let p = match read_wanted_cell(opts) {
        Ok(p) => p,
        Err(e) => {
            return Err(e);
        },
    };
    match choose_sheet(opts, sheets) {
        Ok(t) => {
            assert(sheets.deep_view()[t as int] == sheets@[t as int].deep_view());
            Ok((p.0, p.1, get_cell(&sheets[t].1, p.0, p.1)))
        },
        Err(e) => Err(e),
    }
}

/// What was written into a cell is what is read from it.
pub proof fn cell_that_was_set_reads_back(opts: Json, sheets: Seq<SheetView>)
    requires
        after_set_cell(opts, sheets) is Ok,
    ensures
        found_cell(opts, after_set_cell(opts, sheets)->Ok_0) matches Ok(c) && c.2 == value_or_null(
            opts,
            "value"@,
        ),
{
    let p = wanted_cell(opts)->Ok_0;
    let all = at_least_one(sheets);
    let t = chosen(opts, all)->0;
    let v = value_or_null(opts, "value"@);
    lemma_chosen_in_range(opts, all);
    let rows = with_cell(all[t].1, p.0, p.1, v);
    let after = with_rows(all, t, rows);
    lemma_same_choice(field(opts, "sheet"@), all, t, rows);
    assert(after_set_cell(opts, sheets)->Ok_0 == after);
    lemma_ref_bounds(opts);
    crate::grid::set_cell_reads_back(all[t].1, p.0, p.1, v, p.0, p.1);
}

proof fn lemma_ref_bounds(opts: Json)
    requires
        wanted_cell(opts) is Ok,
    ensures
        wanted_cell(opts)->Ok_0.0 >= 0,
        wanted_cell(opts)->Ok_0.1 >= 0,
{
}

proof fn lemma_sheet_pos(sheets: Seq<SheetView>, name: Seq<char>, i: int)
    requires
        0 <= i <= sheets.len(),
    ensures
        i <= crate::grid::sheet_pos(sheets, name, i) <= sheets.len(),
    decreases sheets.len() - i,
{
    if i < sheets.len() {
        lemma_sheet_pos(sheets, name, i + 1);
    }
}

proof fn lemma_chosen_in_range(opts: Json, sheets: Seq<SheetView>)
    requires
        chosen(opts, sheets) is Some,
    ensures
        0 <= chosen(opts, sheets)->0 < sheets.len(),
{
    if let Some(Json::Text(name)) = field(opts, "sheet"@) {
        lemma_sheet_pos(sheets, name, 0);
    }
}

proof fn lemma_same_pos(sheets: Seq<SheetView>, t: int, rows: RowsView, name: Seq<char>, i: int)
    requires
        0 <= i <= sheets.len(),
        0 <= t < sheets.len(),
    ensures
        crate::grid::sheet_pos(with_rows(sheets, t, rows), name, i) == crate::grid::sheet_pos(
            sheets,
            name,
            i,
        ),
    decreases sheets.len() - i,
{
    if i < sheets.len() {
        lemma_same_pos(sheets, t, rows, name, i + 1);
    }
}

proof fn lemma_same_choice(sel: Option<Json>, sheets: Seq<SheetView>, t: int, rows: RowsView)
    requires
        0 <= t < sheets.len(),
    ensures
        sheet_by(sel, with_rows(sheets, t, rows)) == sheet_by(sel, sheets),
{
    if let Some(Json::Text(name)) = sel {
        lemma_same_pos(sheets, t, rows, name, 0);
    }
}

// ── ranges ──────────────────────────────────────────────────────────────────

/// The rows of values that are to be written.
pub open spec fn wanted_values(opts: Json) -> Result<Seq<Json>, Seq<char>> {
    match as_array(field(opts, "values"@)) {
        Some(a) => Ok(a),
        None => Err("missing values (expected array of rows)"@),
    }
}

/// The sheets with a block of values written.
pub open spec fn after_set_range(opts: Json, sheets: Seq<SheetView>) -> Result<
    Seq<SheetView>,
    Seq<char>,
> {
    match wanted_cell(opts) {
        Ok(p) => match wanted_values(opts) {
            Ok(values) => with_chosen(
                opts,
                sheets,
                |rows: RowsView| with_block(rows, p.0, p.1, values, values.len()),
            ),
            Err(e) => Err(e),
        },
        Err(e) => Err(e),
    }
}

/// Whether a block of values ends at a row and a column that an index can hold.
pub open spec fn block_fits(opts: Json) -> bool {
    match (wanted_cell(opts), wanted_values(opts)) {
        (Ok(p), Ok(values)) => p.0 + values.len() <= usize::MAX && forall|i: int|
            0 <= i < values.len() ==> match as_array(Some(#[trigger] values[i])) {
                Some(cells) => p.1 + cells.len() <= usize::MAX,
                None => true,
            },
        _ => true,
    }
}

/// Whether a block of values ends where an index can hold it.
pub fn is_block_in_bounds(opts: &Value) -> (r: bool)
    ensures
        r == block_fits(opts.deep_view()),
{
    let p = match read_wanted_cell(opts) {
        Ok(p) => p,
        Err(_) => {
            return true;
        },
    };
    match opts.array_at("values") {
        Some(a) => {
            let ghost av = a.deep_view();
            assert(av.len() == a@.len());
            if a.len() > usize::MAX - p.0 {
                return false;
            }
            let mut i: usize = 0;
            while i < a.len()
                invariant
                    i <= a@.len(),
                    av == a.deep_view(),
                    av.len() == a@.len(),
                    forall|k: int|
                        0 <= k < i ==> match as_array(Some(#[trigger] av[k])) {
                            Some(cells) => p.1 + cells.len() <= usize::MAX,
                            None => true,
                        },
                    wanted_cell(opts.deep_view()) == Ok::<(int, int), Seq<char>>(
                        (p.0 as int, p.1 as int),
                    ),
                    wanted_values(opts.deep_view()) == Ok::<Seq<Json>, Seq<char>>(av),
                decreases a@.len() - i,
            {
                assert(av[i as int] == a@[i as int].deep_view());
                if let Some(cells) = a[i].as_array() {
                    assert(cells.deep_view().len() == cells@.len());
                    if cells.len() > usize::MAX - p.1 {
                        return false;
                    }
                }
                i = i + 1;
            }
            true
        },
        None => true,
    }
}

/// Writes a block of values from the cell that a reference names on; also says how many
/// cells were written.
pub fn op_sheet_set_range(opts: &Value, sheets: Vec<Sheet>) -> (r: Result<
    (Vec<Sheet>, u64),
    String,
>)
    requires
        block_fits(opts.deep_view()),
    ensures
        match r {
            Ok(s) => after_set_range(opts.deep_view(), sheets.deep_view()) == Ok::<
                Seq<SheetView>,
                Seq<char>,
            >(s.0.deep_view()) && (wanted_values(opts.deep_view()) matches Ok(values) && s.1
                == crate::deck::in_64_bits(crate::grid::block_size(values, values.len()))),
            Err(e) => after_set_range(opts.deep_view(), sheets.deep_view()) == Err::<
                Seq<SheetView>,
                Seq<char>,
            >(e@),
        },
{
    let p = match read_wanted_cell(opts) {
        Ok(p) => p,
        Err(e) => {
            return Err(e);
        },
    };
    match opts.array_at("values") {
        Some(a) => {
            assert(a.deep_view().len() == a@.len());
            let mut all = sheets;
            match sheet_target_index(opts, &mut all) {
                Ok(t) => {
                    assert(all.deep_view()[t as int] == all@[t as int].deep_view());
                    let mut rows = crate::grid::copy_rows(&all[t].1);
                    let written = set_block(&mut rows, p.0, p.1, a);
                    set_rows(&mut all, t, rows);
                    Ok((all, written))
                },
                Err(e) => Err(e),
            }
        },
        None => Err(copy_text("missing values (expected array of rows)")),
    }
}

/// The cells of a range: of the rows and columns between its two references.
pub open spec fn found_range(opts: Json, sheets: Seq<SheetView>) -> Result<RowsView, Seq<char>> {
    match required_text(opts, "range"@) {
        Ok(range) => match range_ends(range) {
            Ok((a, b)) => match chosen(opts, sheets) {
                Some(t) => Ok(
                    range_cells(
                        sheets[t].1,
                        min2(a.0, b.0),
                        min2(a.1, b.1),
                        max2(a.0, b.0),
                        max2(a.1, b.1),
                    ),
                ),
                None => Err("sheet not found"@),
            },
            Err(e) => Err(e),
        },
        Err(e) => Err(e),
    }
}

/// Reads the cells of a range.
pub fn op_sheet_get_range(opts: &Value, sheets: &Vec<Sheet>) -> (r: Result<Rows, String>)
    ensures
        match r {
            Ok(rows) => found_range(opts.deep_view(), sheets.deep_view()) == Ok::<
                RowsView,
                Seq<char>,
            >(rows.deep_view()),
            Err(e) => found_range(opts.deep_view(), sheets.deep_view()) == Err::<
                RowsView,
                Seq<char>,
            >(e@),
        },
{
    match req_str(opts, "range") {
        Ok(range) => match parse_range(range) {
            Ok(q) => match choose_sheet(opts, sheets) {
                Ok(t) => {
                    assert(sheets.deep_view()[t as int] == sheets@[t as int].deep_view());
                    Ok(get_range(&sheets[t].1, q.0, q.1, q.2, q.3))
                },
                Err(e) => Err(e),
            },
            Err(e) => Err(e),
        },
        Err(e) => Err(e),
    }
}

// ── rows and columns ────────────────────────────────────────────────────────

/// The row or column that is asked for, from 0; the first where nothing is said.
pub open spec fn place_at(opts: Json) -> int {
    match as_u64(field(opts, "at"@)) {
        Some(n) => if n < 1 {
            0
        } else {
            n - 1
        },
        None => 0,
    }
}

/// How many rows are asked for; one where nothing is said.
pub open spec fn count_at(opts: Json) -> u64 {
    match as_u64(field(opts, "count"@)) {
        Some(n) => n,
        None => 1,
    }
}

fn read_place(opts: &Value) -> (r: u64)
    ensures
        r == place_at(opts.deep_view()),
{
    match opts.u64_at("at") {
        Some(n) => if n < 1 {
            0
        } else {
            n - 1
        },
        None => 0,
    }
}

fn read_count(opts: &Value) -> (r: u64)
    ensures
        r == count_at(opts.deep_view()),
{
    match opts.u64_at("count") {
        Some(n) => n,
        None => 1,
    }
}

/// Puts blank rows in.
pub fn op_sheet_insert_rows(opts: &Value, sheets: Vec<Sheet>) -> (r: Result<Vec<Sheet>, String>)
    requires
        place_at(opts.deep_view()) <= usize::MAX,
        count_at(opts.deep_view()) <= usize::MAX,
    ensures
        res_sheets(r) == with_chosen(
            opts.deep_view(),
            sheets.deep_view(),
            |rows: RowsView|
                with_blank_rows(
                    rows,
                    place_at(opts.deep_view()),
                    count_at(opts.deep_view()) as nat,
                ),
        ),
{
    let at = read_place(opts);
    let count = read_count(opts);
    let mut all = sheets;
    match sheet_target_index(opts, &mut all) {
        Ok(t) => {
            assert(all.deep_view()[t as int] == all@[t as int].deep_view());
            let rows = insert_rows(&all[t].1, at as usize, count as usize);
            set_rows(&mut all, t, rows);
            Ok(all)
        },
        Err(e) => Err(e),
    }
}

/// The sheets without some rows of the chosen one.
pub open spec fn after_delete_rows(opts: Json, sheets: Seq<SheetView>) -> Result<
    Seq<SheetView>,
    Seq<char>,
> {
    match as_u64(field(opts, "at"@)) {
        Some(n) => if n >= 1 {
            with_chosen(
                opts,
                sheets,
                |rows: RowsView| without_rows(rows, n - 1, count_at(opts) as int),
            )
        } else {
            Err("missing at (1-based row number)"@)
        },
        None => Err("missing at (1-based row number)"@),
    }
}

/// Takes rows out; also says how many.
pub fn op_sheet_delete_rows(opts: &Value, sheets: Vec<Sheet>) -> (r: Result<
    (Vec<Sheet>, usize),
    String,
>)
    requires
        place_at(opts.deep_view()) <= usize::MAX,
        count_at(opts.deep_view()) <= usize::MAX,
    ensures
        match r {
            Ok(s) => after_delete_rows(opts.deep_view(), sheets.deep_view()) == Ok::<
                Seq<SheetView>,
                Seq<char>,
            >(s.0.deep_view()) && ({
                let before = at_least_one(sheets.deep_view());
                let t = chosen(opts.deep_view(), before);
                t is Some && s.1 == before[t->0].1.len() - s.0.deep_view()[t->0].1.len()
            }),
            Err(e) => after_delete_rows(opts.deep_view(), sheets.deep_view()) == Err::<
                Seq<SheetView>,
                Seq<char>,
            >(e@),
        },
{
    let at: u64 = match opts.u64_at("at") {
        Some(n) => if n >= 1 {
            n - 1
        } else {
            return Err(copy_text("missing at (1-based row number)"));
        },
        None => {
            return Err(copy_text("missing at (1-based row number)"));
        },
    };
    let count = read_count(opts);
    let mut all = sheets;
    match sheet_target_index(opts, &mut all) {
        Ok(t) => {
            let ghost before = all.deep_view();
            assert(all.deep_view()[t as int] == all@[t as int].deep_view());
            assert(all@[t as int].1.deep_view().len() == all@[t as int].1@.len());
            let (rows, deleted) = delete_rows(&all[t].1, at as usize, count as usize);
            assert(rows.deep_view().len() == rows@.len());
            let ghost rv = rows.deep_view();
            set_rows(&mut all, t, rows);
            assert(all.deep_view()[t as int].1 == rv);
            Ok((all, deleted))
        },
        Err(e) => Err(e),
    }
}

/// Puts a column in.
pub fn op_sheet_insert_column(opts: &Value, sheets: Vec<Sheet>) -> (r: Result<Vec<Sheet>, String>)
    requires
        place_at(opts.deep_view()) <= usize::MAX,
    ensures
        res_sheets(r) == with_chosen(
            opts.deep_view(),
            sheets.deep_view(),
            |rows: RowsView|
                with_column(
                    rows,
                    place_at(opts.deep_view()),
                    has_header(opts.deep_view()),
                    match as_text(field(opts.deep_view(), "name"@)) {
                        Some(s) => s,
                        None => ""@,
                    },
                    value_or_null(opts.deep_view(), "value"@),
                ),
        ),
{
    let at = read_place(opts);
    let header = header_flag(opts);
    let name = match opts.text_at("name") {
        Some(s) => s,
        None => "",
    };
    let fill = read_value(opts, "value");
    let mut all = sheets;
    match sheet_target_index(opts, &mut all) {
        Ok(t) => {
            assert(all.deep_view()[t as int] == all@[t as int].deep_view());
            let rows = insert_column(&all[t].1, at as usize, header, name, &fill);
            set_rows(&mut all, t, rows);
            Ok(all)
        },
        Err(e) => Err(e),
    }
}

// ── reading ─────────────────────────────────────────────────────────────────

/// How a spreadsheet is read.
#[derive(Clone, Copy, PartialEq, Eq, Structural)]
pub enum SheetSource {
    Ods,
    Delimited(char),
    Workbook,
}

/// The delimiter that is asked for, or the usual one.
pub open spec fn delimiter_or(opts: Json, usual: char) -> char {
    match as_text(field(opts, "delimiter"@)) {
        Some(s) => if s.len() > 0 {
            s[0]
        } else {
            usual
        },
        None => usual,
    }
}

/// How the spreadsheet at a path is read.
pub open spec fn source_of(opts: Json, path: Seq<char>) -> SheetSource {
    let ext = extension(path);
    if ext == "ods"@ {
        SheetSource::Ods
    } else if ext == "csv"@ {
        SheetSource::Delimited(delimiter_or(opts, ','))
    } else if ext == "tsv"@ {
        SheetSource::Delimited(delimiter_or(opts, '\t'))
    } else {
        SheetSource::Workbook
    }
}

fn read_delimiter(opts: &Value, usual: char) -> (c: char)
    ensures
        c == delimiter_or(opts.deep_view(), usual),
{
    match opts.text_at("delimiter") {
        Some(s) => {
            let cs = chars_of(s);
            if cs.len() > 0 {
                cs[0]
            } else {
                usual
            }
        },
        None => usual,
    }
}

/// How the spreadsheet at a path is read.
pub fn op_sheet_read(opts: &Value, path: &str) -> (r: SheetSource)
    ensures
        r == source_of(opts.deep_view(), path@),
{
    let ext = ext_of(path);
    if same(ext.as_str(), "ods") {
        SheetSource::Ods
    } else if same(ext.as_str(), "csv") {
        SheetSource::Delimited(read_delimiter(opts, ','))
    } else if same(ext.as_str(), "tsv") {
        SheetSource::Delimited(read_delimiter(opts, '\t'))
    } else {
        SheetSource::Workbook
    }
}

/// A row of formulas moved `c0` columns to the right.
pub open spec fn shifted_row(row: Seq<Seq<char>>, c0: nat) -> Seq<Seq<char>> {
    if row.len() == 0 {
        Seq::empty()
    } else {
        Seq::new(c0, |i: int| Seq::<char>::empty()) + row
    }
}

/// Formulas that stand `r0` rows down and `c0` columns to the right, in a grid that starts
/// at the first cell.
pub open spec fn shifted(rows: Seq<Seq<Seq<char>>>, r0: nat, c0: nat) -> Seq<Seq<Seq<char>>> {
    if rows.len() == 0 {
        Seq::empty()
    } else {
        Seq::new(r0, |i: int| Seq::<Seq<char>>::empty()) + Seq::new(
            rows.len(),
            |i: int| shifted_row(rows[i], c0),
        )
    }
}

fn shift_row(row: &Vec<String>, c0: usize) -> (r: Vec<String>)
    ensures
        r.deep_view() == shifted_row(row.deep_view(), c0 as nat),
{
    let mut out: Vec<String> = Vec::new();
    let ghost rv = row.deep_view();
    assert(rv.len() == row@.len());
    let ghost none = |i: int| Seq::<char>::empty();
    if row.len() == 0 {
        assert(out.deep_view() =~= Seq::<Seq<char>>::empty());
        return out;
    }
    let mut i: usize = 0;
    assert(out.deep_view() =~= Seq::new(0nat, none));
    while i < c0
        invariant
            i <= c0,
            none == (|i: int| Seq::<char>::empty()),
            out.deep_view() == Seq::new(i as nat, none),
        decreases c0 - i,
    {
        let s = String::new();
        assert(s@ =~= Seq::<char>::empty());
        push_deep(&mut out, s);
        i = i + 1;
        assert(out.deep_view() =~= Seq::new(i as nat, none));
    }
    let ghost head = out.deep_view();
    let mut k: usize = 0;
    assert(out.deep_view() =~= head + rv.take(0));
    while k < row.len()
        invariant
            k <= row@.len(),
            rv == row.deep_view(),
            rv.len() == row@.len(),
            out.deep_view() == head + rv.take(k as int),
        decreases row@.len() - k,
    {
        assert(rv[k as int] == row@[k as int]@);
        push_deep(&mut out, copy_text(row[k].as_str()));
        k = k + 1;
        assert(out.deep_view() =~= head + rv.take(k as int));
    }
    assert(rv.take(k as int) =~= rv);
    out
}

/// Lines formulas up with the cells that they stand in.
pub fn place_formulas(rows: &Vec<Vec<String>>, r0: usize, c0: usize) -> (r: Vec<Vec<String>>)
    ensures
        r.deep_view() == shifted(rows.deep_view(), r0 as nat, c0 as nat),
{
    let ghost rv = rows.deep_view();
    assert(rv.len() == rows@.len());
    let mut out: Vec<Vec<String>> = Vec::new();
    if rows.len() == 0 {
        assert(out.deep_view() =~= Seq::<Seq<Seq<char>>>::empty());
        return out;
    }
    let ghost none = |i: int| Seq::<Seq<char>>::empty();
    let mut i: usize = 0;
    assert(out.deep_view() =~= Seq::new(0nat, none));
    while i < r0
        invariant
            i <= r0,
            none == (|i: int| Seq::<Seq<char>>::empty()),
            out.deep_view() == Seq::new(i as nat, none),
        decreases r0 - i,
    {
        let blank: Vec<String> = Vec::new();
        assert(blank.deep_view() =~= Seq::<Seq<char>>::empty());
        push_deep(&mut out, blank);
        i = i + 1;
        assert(out.deep_view() =~= Seq::new(i as nat, none));
    }
    let ghost head = out.deep_view();
    let ghost tail = Seq::new(rv.len(), |i: int| shifted_row(rv[i], c0 as nat));
    let mut k: usize = 0;
    assert(out.deep_view() =~= head + tail.take(0));
    while k < rows.len()
        invariant
            k <= rows@.len(),
            rv == rows.deep_view(),
            rv.len() == rows@.len(),
            tail == Seq::new(rv.len(), |i: int| shifted_row(rv[i], c0 as nat)),
            out.deep_view() == head + tail.take(k as int),
        decreases rows@.len() - k,
    {
        assert(rv[k as int] == rows@[k as int].deep_view());
        push_deep(&mut out, shift_row(&rows[k], c0));
        k = k + 1;
        assert(out.deep_view() =~= head + tail.take(k as int));
    }
    assert(tail.take(k as int) =~= tail);
    out
}

/// What the quantiles of a column are taken of: its name, and its numbers in rising order.
pub fn op_sheet_quantile(rows: &Rows, nums: &Nums, header: bool, c: usize) -> (r: (
    String,
    Vec<u64>,
))
    ensures
        ({
            let rv = rows.deep_view();
            let vals = readings(
                nums_view(nums@),
                data_start(header, rv),
                rv.len() as int,
                Some(c),
            );
            let ns = numbers_in(vals, vals.len());
            r.0@ == column_label(header, rv, c as int) && is_sorted_copy(
                ns,
                r.1@,
                num_key_order(ns, false),
            )
        }),
{
    let start = first_data_row(header, rows);
    assert(rows.deep_view().len() == rows@.len());
    let vals = column_readings(nums, start, rows.len(), Some(c));
    let ns = column_numbers(&vals);
    (label_of_column(header, rows, c), sort_numbers_up(&ns))
}

// ── other formats ───────────────────────────────────────────────────────────

/// Members with those of `opts` appended that stand under the first `n` keys.
pub open spec fn passed_on(
    o: Seq<(Seq<char>, Json)>,
    opts: Json,
    keys: Seq<Seq<char>>,
    n: nat,
) -> Seq<(Seq<char>, Json)>
    decreases n,
{
    if n == 0 || n > keys.len() {
        o
    } else {
        let before = passed_on(o, opts, keys, (n - 1) as nat);
        match field(opts, keys[n - 1]) {
            Some(v) => before.push((keys[n - 1], v)),
            None => before,
        }
    }
}

fn pass_on(o: &mut Vec<(String, Value)>, opts: &Value, key: &str)
    ensures
        final(o).deep_view() == (match field(opts.deep_view(), key@) {
            Some(v) => old(o).deep_view().push((key@, v)),
            None => old(o).deep_view(),
        }),
{
    if let Some(v) = opts.get(key) {
        add_member(o, key, v.dup());
    }
}

/// The options for writing records that were read from elsewhere.
pub open spec fn record_options(opts: Json, path: Seq<char>, records: Seq<Json>) -> Json {
    Json::Object(
        passed_on(
            seq![("path"@, Json::Text(path)), ("records"@, Json::Array(records))],
            opts,
            seq!["fields"@, "sheet_name"@, "format"@],
            3,
        ),
    )
}

/// The options for writing records that were read from elsewhere.
pub fn op_json_to_sheet(opts: &Value, path: &str, records: Vec<Value>) -> (r: Value)
    ensures
        r.deep_view() == record_options(opts.deep_view(), path@, records.deep_view()),
{
    let mut o: Vec<(String, Value)> = Vec::new();
    let ghost rv = records.deep_view();
    add_member(&mut o, "path", text_value(path));
    add_member(&mut o, "records", crate::value::array(records));
    let ghost first = seq![("path"@, Json::Text(path@)), ("records"@, Json::Array(rv))];
    let ghost keys = seq!["fields"@, "sheet_name"@, "format"@];
    assert(o.deep_view() =~= passed_on(first, opts.deep_view(), keys, 0));
    pass_on(&mut o, opts, "fields");
    assert(o.deep_view() == passed_on(first, opts.deep_view(), keys, 1));
    pass_on(&mut o, opts, "sheet_name");
    assert(o.deep_view() == passed_on(first, opts.deep_view(), keys, 2));
    pass_on(&mut o, opts, "format");
    assert(o.deep_view() == passed_on(first, opts.deep_view(), keys, 3));
    object(o)
}

/// The options for sorting a sheet so that its best rows come first.
pub open spec fn top_sort_options(opts: Json, path: Seq<char>, output: Seq<char>, by: Json) -> Json {
    Json::Object(
        passed_on(
            seq![
                ("path"@, Json::Text(path)),
                ("by"@, by),
                ("output"@, Json::Text(output)),
                ("descending"@, Json::Bool(flag_at(opts, "ascending"@) != Some(true))),
            ],
            opts,
            seq!["sheet"@, "header"@, "numeric"@, "format"@],
            4,
        ),
    )
}

/// How many rows are kept; ten where nothing is said.
pub open spec fn kept_count(opts: Json) -> Json {
    match field(opts, "n"@) {
        Some(v) => v,
        None => Json::Number(Num::Unsigned(10)),
    }
}

/// The options for keeping the first rows of the sorted sheet.
pub open spec fn top_head_options(opts: Json, output: Seq<char>) -> Json {
    Json::Object(
        passed_on(
            seq![
                ("path"@, Json::Text(output)),
                ("output"@, Json::Text(output)),
                ("n"@, kept_count(opts)),
            ],
            opts,
            seq!["sheet"@, "header"@, "format"@],
            3,
        ),
    )
}

/// The best rows of a sheet: how it is sorted, and how many rows are kept.
pub open spec fn top_options(opts: Json) -> Result<(Json, Json), Seq<char>> {
    match required_text(opts, "path"@) {
        Ok(path) => match required_text(opts, "output"@) {
            Ok(output) => match field(opts, "by"@) {
                Some(by) => Ok(
                    (top_sort_options(opts, path, output, by), top_head_options(opts, output)),
                ),
                None => Err("missing by (column name or index)"@),
            },
            Err(e) => Err(e),
        },
        Err(e) => Err(e),
    }
}

/// The options for sorting a sheet, and then for keeping its first rows.
pub fn op_sheet_top(opts: &Value) -> (r: Result<(Value, Value), String>)
    ensures
        match r {
            Ok(p) => top_options(opts.deep_view()) == Ok::<(Json, Json), Seq<char>>(
                (p.0.deep_view(), p.1.deep_view()),
            ),
            Err(e) => top_options(opts.deep_view()) == Err::<(Json, Json), Seq<char>>(e@),
        },
{
    let path = match req_str(opts, "path") {
        Ok(p) => p,
        Err(e) => {
            return Err(e);
        },
    };
    let output = match req_str(opts, "output") {
        Ok(p) => p,
        Err(e) => {
            return Err(e);
        },
    };
    let by = match opts.get("by") {
        Some(v) => v.dup(),
        None => {
            return Err(copy_text("missing by (column name or index)"));
        },
    };
    let ghost ov = opts.deep_view();
    let ghost bv = by.deep_view();
    let ascending = match opt_flag(opts, "ascending") {
        Some(b) => b,
        None => false,
    };
    let mut s: Vec<(String, Value)> = Vec::new();
    add_member(&mut s, "path", text_value(path));
    add_member(&mut s, "by", by);
    add_member(&mut s, "output", text_value(output));
    add_member(&mut s, "descending", Value::Bool(!ascending));
    let ghost first = seq![
        ("path"@, Json::Text(path@)),
        ("by"@, bv),
        ("output"@, Json::Text(output@)),
        ("descending"@, Json::Bool(!ascending)),
    ];
    let ghost keys = seq!["sheet"@, "header"@, "numeric"@, "format"@];
    assert(s.deep_view() =~= passed_on(first, ov, keys, 0));
    pass_on(&mut s, opts, "sheet");
    assert(s.deep_view() == passed_on(first, ov, keys, 1));
    pass_on(&mut s, opts, "header");
    assert(s.deep_view() == passed_on(first, ov, keys, 2));
    pass_on(&mut s, opts, "numeric");
    assert(s.deep_view() == passed_on(first, ov, keys, 3));
    pass_on(&mut s, opts, "format");
    assert(s.deep_view() == passed_on(first, ov, keys, 4));
    assert(!ascending == (flag_at(ov, "ascending"@) != Some(true)));
    assert(Json::Object(s.deep_view()) == top_sort_options(ov, path@, output@, bv));
    let n = match opts.get("n") {
        Some(v) => v.dup(),
        None => crate::value::count_value(10),
    };
    let ghost count = n.deep_view();
    assert(count == kept_count(ov));
    let mut h: Vec<(String, Value)> = Vec::new();
    add_member(&mut h, "path", text_value(output));
    add_member(&mut h, "output", text_value(output));
    add_member(&mut h, "n", n);
    let ghost second = seq![
        ("path"@, Json::Text(output@)),
        ("output"@, Json::Text(output@)),
        ("n"@, count),
    ];
    let ghost more = seq!["sheet"@, "header"@, "format"@];
    assert(h.deep_view() =~= passed_on(second, ov, more, 0));
    pass_on(&mut h, opts, "sheet");
    assert(h.deep_view() == passed_on(second, ov, more, 1));
    pass_on(&mut h, opts, "header");
    assert(h.deep_view() == passed_on(second, ov, more, 2));
    pass_on(&mut h, opts, "format");
    assert(h.deep_view() == passed_on(second, ov, more, 3));
    assert(Json::Object(h.deep_view()) == top_head_options(ov, output@));
    Ok((object(s), object(h)))
}

/// An edit changes the chosen sheet alone, and keeps its name.
pub proof fn edits_leave_other_sheets(
    opts: Json,
    sheets: Seq<SheetView>,
    f: spec_fn(RowsView) -> RowsView,
    k: int,
)
    requires
        with_chosen(opts, sheets, f) is Ok,
        0 <= k < at_least_one(sheets).len(),
    ensures
        ({
            let all = at_least_one(sheets);
            let out = with_chosen(opts, sheets, f)->Ok_0;
            let t = sheet_by(field(opts, "sheet"@), all);
            &&& t is Some
            &&& sheets.len() > 0 ==> all == sheets
            &&& out.len() == all.len()
            &&& out[k].0 == all[k].0
            &&& k != t->0 ==> out[k].1 == all[k].1
            &&& k == t->0 ==> out[k].1 == f(all[k].1)
        }),
{
}

/// A range is read the same whichever of its corners is named first, and holds what the chosen
/// sheet holds between them.
pub proof fn ranges_are_read_between_corners(
    opts: Json,
    sheets: Seq<SheetView>,
    a: (int, int),
    b: (int, int),
    t: int,
    r: int,
    c: int,
)
    requires
        required_text(opts, "range"@) is Ok,
        range_ends(required_text(opts, "range"@)->Ok_0) == Ok::<((int, int), (int, int)), Seq<char>>(
            (a, b),
        ),
        sheet_by(field(opts, "sheet"@), sheets) == Some(t),
        a.0 <= r <= b.0 || b.0 <= r <= a.0,
        a.1 <= c <= b.1 || b.1 <= c <= a.1,
    ensures
        found_range(opts, sheets) matches Ok(out) && ({
            let (r0, r1) = if a.0 <= b.0 {
                (a.0, b.0)
            } else {
                (b.0, a.0)
            };
            let (c0, c1) = if a.1 <= b.1 {
                (a.1, b.1)
            } else {
                (b.1, a.1)
            };
            out.len() == r1 - r0 + 1 && out[r - r0].len() == c1 - c0 + 1 && out[r - r0][c - c0]
                == held(sheets[t].1, r, c)
        }),
{
}

} // verus!
