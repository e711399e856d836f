//! Workbooks as lists of sheets: renamed, added, removed, reordered, merged, compared,
//! described and turned into slides.

use crate::deck::unsigned;
use crate::deep::{append_deep, push_deep, tabulate};
use crate::formats::{Sheet, SheetView};
use crate::grid::{
    col_letters, copy_rows, find_sheet, get_cell, held, letters_of, max2, read_cell, sheet_by, Rows,
    RowsView,
};
use crate::paths::{target_ext, wanted_ext};
use crate::records::{op_records_write, record_rows, wanted_fields};
use crate::tables::{count_columns, widest};
use crate::text::{
    char_is_alnum, chars_of, concat2, concat3, copy_text, decimal, is_alnum, push_decimal, same,
    trim, trim_text,
};
use crate::tidy::{json_rows, rows_of_json};
use crate::value::{
    add_member, array, as_array, as_text, cell_text, cell_to_string, count_value, field, object,
    text_value, Json, Num, Number, Value,
};
use crate::workbook::{name_of_sheet, sheet_name};
use crate::xml::one_of;
use vstd::prelude::*;

verus! {

// ── sheets out of options ───────────────────────────────────────────────────

/// The sheets that the first `n` items of a list describe, or the first complaint.
pub open spec fn sheets_among(a: Seq<Json>, n: nat) -> Result<Seq<SheetView>, Seq<char>>
    decreases n,
{
    if n == 0 || n > a.len() {
        Ok(Seq::empty())
    } else {
        match sheets_among(a, (n - 1) as nat) {
            Err(e) => Err(e),
            Ok(before) => match as_array(field(a[n - 1], "rows"@)) {
                None => Err("sheet "@ + sheet_name(a[n - 1], n - 1) + ": missing rows"@),
                Some(rows) => Ok(before.push((sheet_name(a[n - 1], n - 1), json_rows(rows)))),
            },
        }
    }
}

/// The sheets that options describe.
pub open spec fn wanted_sheets(opts: Json) -> Result<Seq<SheetView>, Seq<char>> {
    match as_array(field(opts, "sheets"@)) {
        None => Err("missing sheets (expected array)"@),
        Some(a) => sheets_among(a, a.len()),
    }
}

pub open spec fn res_sheets(r: Result<Vec<Sheet>, String>) -> Result<Seq<SheetView>, Seq<char>> {
    match r {
        Ok(s) => Ok(s.deep_view()),
        Err(e) => Err(e@),
    }
}

proof fn lemma_complaint_stays(a: Seq<Json>, i: nat, n: nat)
    requires
        i <= n <= a.len(),
        sheets_among(a, i) is Err,
    ensures
        sheets_among(a, n) == sheets_among(a, i),
    decreases n,
{
    if i < n {
        lemma_complaint_stays(a, i, (n - 1) as nat);
    }
}

/// The sheets that options describe.
pub fn json_sheets(opts: &Value) -> (r: Result<Vec<Sheet>, String>)
    ensures
        res_sheets(r) == wanted_sheets(opts.deep_view()),
{
    match opts.array_at("sheets") {
        None => Err(copy_text("missing sheets (expected array)")),
        Some(a) => {
            let ghost av = a.deep_view();
            assert(av.len() == a@.len());
            let mut out: Vec<Sheet> = Vec::new();
            let mut i: usize = 0;
            assert(out.deep_view() =~= Seq::<SheetView>::empty());
            while i < a.len()
                invariant
                    i <= a@.len(),
                    av == a.deep_view(),
                    av.len() == a@.len(),
                    as_array(field(opts.deep_view(), "sheets"@)) == Some(av),
                    sheets_among(av, i as nat) == Ok::<Seq<SheetView>, Seq<char>>(out.deep_view()),
                decreases a@.len() - i,
            {
                assert(av[i as int] == a@[i as int].deep_view());
                let name = name_of_sheet(&a[i], i);
                match a[i].array_at("rows") {
                    None => {
                        proof {
                            lemma_complaint_stays(av, (i + 1) as nat, av.len());
                        }
                        return Err(concat3("sheet ", name.as_str(), ": missing rows"));
                    },
                    Some(rows) => {
                        let rs = rows_of_json(rows);
                        let ghost item = (name@, rs.deep_view());
                        push_deep(&mut out, (name, rs));
                        assert(out.deep_view().last() == item);
                    },
                }
                i = i + 1;
            }
            Ok(out)
        },
    }
}

/// How a spreadsheet is written.
pub enum SheetFormat {
    Xlsx,
    Ods,
    Delimited(char),
    Html,
    Markdown,
}

/// The format of a spreadsheet to be written; a delimited text has the delimiter that
/// options give, else a tabulator for `tsv` and a comma for `csv`.
pub open spec fn sheet_format(opts: Json, path: Seq<char>) -> Result<SheetFormat, Seq<char>> {
    let ext = wanted_ext(opts, path);
    if ext == "xlsx"@ {
        Ok(SheetFormat::Xlsx)
    } else if ext == "ods"@ {
        Ok(SheetFormat::Ods)
    } else if ext == "csv"@ || ext == "tsv"@ {
        Ok(
            SheetFormat::Delimited(
                match as_text(field(opts, "delimiter"@)) {
                    Some(d) => if d.len() > 0 {
                        d[0]
                    } else if ext == "tsv"@ {
                        '\t'
                    } else {
                        ','
                    },
                    None => if ext == "tsv"@ {
                        '\t'
                    } else {
                        ','
                    },
                },
            ),
        )
    } else if ext == "html"@ || ext == "htm"@ {
        Ok(SheetFormat::Html)
    } else if ext == "md"@ || ext == "markdown"@ {
        Ok(SheetFormat::Markdown)
    } else {
        Err("unsupported spreadsheet write format: "@ + ext)
    }
}

pub open spec fn res_format(r: Result<SheetFormat, String>) -> Result<SheetFormat, Seq<char>> {
    match r {
        Ok(f) => Ok(f),
        Err(e) => Err(e@),
    }
}

/// How a spreadsheet is to be written.
pub fn op_sheet_write(opts: &Value, path: &str) -> (r: Result<SheetFormat, String>)
    ensures
        res_format(r) == sheet_format(opts.deep_view(), path@),
{
    let target = target_ext(opts, path);
    let ext = target.as_str();
    if same(ext, "xlsx") {
        Ok(SheetFormat::Xlsx)
    } else if same(ext, "ods") {
        Ok(SheetFormat::Ods)
    } else if same(ext, "csv") || same(ext, "tsv") {
        let usual = if same(ext, "tsv") {
            '\t'
        } else {
            ','
        };
        match opts.text_at("delimiter") {
            Some(d) => {
                let cs = chars_of(d);
                if cs.len() > 0 {
                    Ok(SheetFormat::Delimited(cs[0]))
                } else {
                    Ok(SheetFormat::Delimited(usual))
                }
            },
            None => Ok(SheetFormat::Delimited(usual)),
        }
    } else if same(ext, "html") || same(ext, "htm") {
        Ok(SheetFormat::Html)
    } else if same(ext, "md") || same(ext, "markdown") {
        Ok(SheetFormat::Markdown)
    } else {
        Err(concat2("unsupported spreadsheet write format: ", ext))
    }
}

/// What a cell of an OpenDocument sheet holds.
pub enum OdsCell {
    Empty,
    Flag(bool),
    Number(Number),
    Text(String),
}

/// What a value becomes in an OpenDocument sheet.
pub fn write_ods(cell: &Value) -> (r: OdsCell)
    ensures
        match (cell, r) {
            (Value::Null, OdsCell::Empty) => true,
            (Value::Bool(a), OdsCell::Flag(b)) => *a == b,
            (Value::Number(a), OdsCell::Number(b)) => a.deep_view() == b.deep_view(),
            (Value::Text(_), OdsCell::Text(t)) => t@ == cell_text(cell.deep_view()),
            (Value::Array(_), OdsCell::Text(t)) => t@ == cell_text(cell.deep_view()),
            (Value::Object(_), OdsCell::Text(t)) => t@ == cell_text(cell.deep_view()),
            _ => false,
        },
{
    match cell {
        Value::Null => OdsCell::Empty,
        Value::Bool(b) => OdsCell::Flag(*b),
        Value::Number(n) => OdsCell::Number(n.dup()),
        _ => OdsCell::Text(cell_to_string(cell)),
    }
}

// ── lists of sheets ─────────────────────────────────────────────────────────

/// The sheets with a new name for one of them.
pub open spec fn renamed(sheets: Seq<SheetView>, t: int, name: Seq<char>) -> Seq<SheetView> {
    sheets.update(t, (name, sheets[t].1))
}

/// Renames a sheet.
pub fn op_sheet_rename(sheets: Vec<Sheet>, from: Option<&Value>, to: &str) -> (r: Result<
    Vec<Sheet>,
    String,
>)
    ensures
        match sheet_by(crate::value::opt_json(from), sheets.deep_view()) {
            Some(t) => r is Ok && r->Ok_0.deep_view() == renamed(sheets.deep_view(), t, to@),
            None => r is Err && r->Err_0@ == "sheet not found"@,
        },
{
    let ghost sv = sheets.deep_view();
    match find_sheet(from, &sheets) {
        None => Err(copy_text("sheet not found")),
        Some(t) => {
            let mut out = sheets;
            let item = (copy_text(to), copy_rows(&out[t].1));
            let ghost iv = (item.0@, item.1.deep_view());
            assert(sv[t as int] == out@[t as int].deep_view());
            crate::grid::set_deep(&mut out, t, item);
            assert(out.deep_view() =~= renamed(sv, t as int, to@));
            Ok(out)
        },
    }
}

/// The sheets with one more at a position, or at the end where there is no such one.
pub open spec fn with_sheet(sheets: Seq<SheetView>, at: Option<u64>, s: SheetView) -> Seq<
    SheetView,
> {
    match at {
        Some(p) => if p <= sheets.len() {
            sheets.insert(p as int, s)
        } else {
            sheets.push(s)
        },
        None => sheets.push(s),
    }
}

/// Adds a sheet.
pub fn op_sheet_add(sheets: Vec<Sheet>, at: Option<u64>, name: &str, rows: Rows) -> (r: Vec<Sheet>)
    ensures
        r.deep_view() == with_sheet(sheets.deep_view(), at, (name@, rows.deep_view())),
{
    let ghost sv = sheets.deep_view();
    let mut out = sheets;
    let item = (copy_text(name), rows);
    let ghost iv = item.deep_view();
    assert(iv == (name@, rows.deep_view()));
    assert(sv.len() == out@.len());
    match at {
        Some(p) => {
            if p <= out.len() as u64 {
                let ghost was = out@;
                out.insert(p as usize, item);
                assert(out.deep_view() =~= sv.insert(p as int, iv)) by {
                    assert forall|i: int| 0 <= i < out@.len() implies out.deep_view()[i]
                        == sv.insert(p as int, iv)[i] by {
                        if i < p {
                            assert(out@[i] == was[i]);
                        } else if i > p {
                            assert(out@[i] == was[i - 1]);
                        }
                    }
                }
            } else {
                push_deep(&mut out, item);
            }
        },
        None => {
            push_deep(&mut out, item);
        },
    }
    out
}

/// What removing a sheet leaves, with the name of the removed one, or the complaint.
pub open spec fn without_sheet(sel: Option<Json>, sheets: Seq<SheetView>) -> Result<
    (Seq<SheetView>, Seq<char>),
    Seq<char>,
> {
    match sel {
        Some(Json::Text(_)) | Some(Json::Number(_)) => match sheet_by(sel, sheets) {
            None => Err("sheet not found"@),
            Some(t) => if sheets.len() <= 1 {
                Err("cannot remove the only sheet"@)
            } else {
                Ok((sheets.remove(t), sheets[t].0))
            },
        },
        _ => Err("missing sheet to remove (name or index)"@),
    }
}

/// Removes a sheet.
pub fn op_sheet_remove(sheets: Vec<Sheet>, sel: Option<&Value>) -> (r: Result<
    (Vec<Sheet>, String),
    String,
>)
    ensures
        match (r, without_sheet(crate::value::opt_json(sel), sheets.deep_view())) {
            (Ok(p), Ok(q)) => p.0.deep_view() == q.0 && p.1@ == q.1,
            (Err(e), Err(m)) => e@ == m,
            _ => false,
        },
{
    let ghost sv = sheets.deep_view();
    assert(sv.len() == sheets@.len());
    let known = match sel {
        Some(Value::Text(_)) => true,
        Some(Value::Number(_)) => true,
        _ => false,
    };
    if !known {
        return Err(copy_text("missing sheet to remove (name or index)"));
    }
    match find_sheet(sel, &sheets) {
        None => Err(copy_text("sheet not found")),
        Some(t) => {
            if sheets.len() <= 1 {
                return Err(copy_text("cannot remove the only sheet"));
            }
            let mut out = sheets;
            assert(sv[t as int] == out@[t as int].deep_view());
            let ghost was = out@;
            let gone = out.remove(t);
            assert(out.deep_view() =~= sv.remove(t as int)) by {
                assert forall|i: int| 0 <= i < out@.len() implies out.deep_view()[i] == sv.remove(
                    t as int,
                )[i] by {
                    if i < t {
                        assert(out@[i] == was[i]);
                    } else {
                        assert(out@[i] == was[i + 1]);
                    }
                }
            }
            Ok((out, gone.0))
        },
    }
}

/// Whether an item of an order names a sheet, and which.
pub open spec fn ordered_sheet(o: Json, sheets: Seq<SheetView>) -> Option<int> {
    match o {
        Json::Text(_) | Json::Number(_) => sheet_by(Some(o), sheets),
        _ => None,
    }
}

/// The sheets that the first `n` items of an order name.
pub open spec fn in_given_order(order: Seq<Json>, sheets: Seq<SheetView>, n: nat) -> Seq<SheetView>
    decreases n,
{
    if n == 0 || n > order.len() {
        Seq::empty()
    } else {
        let before = in_given_order(order, sheets, (n - 1) as nat);
        match ordered_sheet(order[n - 1], sheets) {
            Some(t) => before.push(sheets[t]),
            None => before,
        }
    }
}

/// The sheets in a given order; those that it does not name are left out.
pub fn op_sheet_reorder(sheets: &Vec<Sheet>, order: &Vec<Value>) -> (r: Result<Vec<Sheet>, String>)
    ensures
        ({
            let out = in_given_order(order.deep_view(), sheets.deep_view(), order@.len());
            if out.len() == 0 {
                r is Err && r->Err_0@ == "order referenced no existing sheets"@
            } else {
                r is Ok && r->Ok_0.deep_view() == out
            }
        }),
{
    let ghost sv = sheets.deep_view();
    let ghost ov = order.deep_view();
    let mut out: Vec<Sheet> = Vec::new();
    let mut i: usize = 0;
    assert(out.deep_view() =~= Seq::<SheetView>::empty());
    while i < order.len()
        invariant
            i <= order@.len(),
            sv == sheets.deep_view(),
            ov == order.deep_view(),
            out.deep_view() == in_given_order(ov, sv, i as nat),
        decreases order@.len() - i,
    {
        assert(ov[i as int] == order@[i as int].deep_view());
        let known = match &order[i] {
            Value::Text(_) => true,
            Value::Number(_) => true,
            _ => false,
        };
        if known {
            match find_sheet(Some(&order[i]), sheets) {
                Some(t) => {
                    assert(sv[t as int] == sheets@[t as int].deep_view());
                    let item = (sheets[t].0.clone(), copy_rows(&sheets[t].1));
                    assert(item.deep_view() == sv[t as int]);
                    push_deep(&mut out, item);
                },
                None => {},
            }
        }
        i = i + 1;
    }
    assert(out.deep_view().len() == out@.len());
    if out.len() == 0 {
        Err(copy_text("order referenced no existing sheets"))
    } else {
        Ok(out)
    }
}

// ── merging ─────────────────────────────────────────────────────────────────

/// A name with a number behind it.
pub open spec fn numbered_name(base: Seq<char>, k: nat) -> Seq<char> {
    base + " ("@ + decimal(k) + ")"@
}

/// The first numbered name from `k` on that is not used, looking at most `fuel` further.
pub open spec fn free_name(base: Seq<char>, used: Seq<Seq<char>>, k: nat, fuel: nat) -> Seq<char>
    decreases fuel,
{
    if fuel == 0 || !used.contains(numbered_name(base, k)) {
        numbered_name(base, k)
    } else {
        free_name(base, used, k + 1, (fuel - 1) as nat)
    }
}

/// A name that is not used: the name itself, or with the first number from 2 on that
/// makes it so.
pub open spec fn fresh_name(base: Seq<char>, used: Seq<Seq<char>>) -> Seq<char> {
    if used.contains(base) {
        free_name(base, used, 2, used.len())
    } else {
        base
    }
}

/// The names of sheets.
pub open spec fn names_of(sheets: Seq<SheetView>) -> Seq<Seq<char>> {
    Seq::new(sheets.len(), |i: int| sheets[i].0)
}

/// Sheets with the first `n` of others behind them, each under a name that is not used.
pub open spec fn with_source(sheets: Seq<SheetView>, more: Seq<SheetView>, n: nat) -> Seq<SheetView>
    decreases n,
{
    if n == 0 || n > more.len() {
        sheets
    } else {
        let before = with_source(sheets, more, (n - 1) as nat);
        before.push((fresh_name(more[n - 1].0, names_of(before)), more[n - 1].1))
    }
}

/// The sheets of the first `n` sources, one after the other.
pub open spec fn merged_sheets(sources: Seq<Seq<SheetView>>, n: nat) -> Seq<SheetView>
    decreases n,
{
    if n == 0 || n > sources.len() {
        Seq::empty()
    } else {
        with_source(
            merged_sheets(sources, (n - 1) as nat),
            sources[n - 1],
            sources[n - 1].len(),
        )
    }
}

/// The rows of the first `n` sheets, one after the other.
pub open spec fn stacked(sheets: Seq<SheetView>, n: nat) -> RowsView
    decreases n,
{
    if n == 0 || n > sheets.len() {
        Seq::empty()
    } else {
        stacked(sheets, (n - 1) as nat) + sheets[n - 1].1
    }
}

/// The rows of the first `n` sources.
pub open spec fn merged_rows(sources: Seq<Seq<SheetView>>, n: nat) -> RowsView
    decreases n,
{
    if n == 0 || n > sources.len() {
        Seq::empty()
    } else {
        merged_rows(sources, (n - 1) as nat) + stacked(sources[n - 1], sources[n - 1].len())
    }
}

fn make_numbered(base: &str, k: u64) -> (r: String)
    ensures
        r@ == numbered_name(base@, k as nat),
{
    let mut s = concat2(base, " (");
    push_decimal(&mut s, k);
    s.push_str(")");
    s
}

fn make_fresh(base: &str, used: &Vec<String>) -> (r: String)
    requires
        used@.len() < usize::MAX - 2,
    ensures
        r@ == fresh_name(base@, used.deep_view()),
{
    if !one_of(used, base) {
        return copy_text(base);
    }
    let ghost uv = used.deep_view();
    assert(uv.len() == used@.len());
    let mut k: u64 = 2;
    let mut left: usize = used.len();
    let limit: u64 = used.len() as u64 + 2;
    let mut name = make_numbered(base, k);
    while left > 0 && one_of(used, name.as_str())
        invariant
            uv == used.deep_view(),
            k + left == limit,
            limit <= u64::MAX,
            name@ == numbered_name(base@, k as nat),
            free_name(base@, uv, 2, uv.len()) == free_name(base@, uv, k as nat, left as nat),
        decreases left,
    {
        k = k + 1;
        left = left - 1;
        name = make_numbered(base, k);
    }
    name
}

fn names_of_sheets(sheets: &Vec<Sheet>) -> (r: Vec<String>)
    ensures
        r.deep_view() == names_of(sheets.deep_view()),
        r@.len() == sheets@.len(),
{
    let ghost sv = sheets.deep_view();
    let name = |i: usize| -> (t: String)
        requires
            i < sheets@.len(),
        ensures
            t@ == sheets@[i as int].0@,
        { sheets[i].0.clone() };
    let ghost g = |i: int| sv[i].0;
    assert(sv.len() == sheets@.len());
    assert forall|i: usize| i < sheets@.len() implies sv[i as int] == (#[trigger] sheets@[
        i as int
    ]).deep_view() by {}
    let out = tabulate(sheets.len(), &name, Ghost(g));
    assert(out.deep_view() =~= names_of(sv));
    out
}

fn add_source(out: &mut Vec<Sheet>, more: &Vec<Sheet>)
    requires
        old(out)@.len() + more@.len() < usize::MAX - 2,
    ensures
        final(out).deep_view() == with_source(
            old(out).deep_view(),
            more.deep_view(),
            more@.len(),
        ),
        final(out)@.len() == old(out)@.len() + more@.len(),
{
    let ghost before = out.deep_view();
    let ghost size = out@.len();
    let ghost mv = more.deep_view();
    let mut i: usize = 0;
    while i < more.len()
        invariant
            i <= more@.len(),
            out@.len() == size + i,
            size + more@.len() < usize::MAX - 2,
            mv == more.deep_view(),
            out.deep_view() == with_source(before, mv, i as nat),
        decreases more@.len() - i,
    {
        assert(mv[i as int] == more@[i as int].deep_view());
        let used = names_of_sheets(out);
        let name = make_fresh(more[i].0.as_str(), &used);
        let item = (name, copy_rows(&more[i].1));
        assert(item.deep_view() == (item.0@, mv[i as int].1));
        push_deep(out, item);
        i = i + 1;
    }
}

/// How many sheets the first `n` sources have.
pub open spec fn sheet_total(sources: Seq<Seq<SheetView>>, n: nat) -> nat
    decreases n,
{
    if n == 0 || n > sources.len() {
        0
    } else {
        sheet_total(sources, (n - 1) as nat) + sources[n - 1].len()
    }
}

proof fn lemma_total_grows(sources: Seq<Seq<SheetView>>, i: nat, n: nat)
    requires
        i <= n <= sources.len(),
    ensures
        sheet_total(sources, i) <= sheet_total(sources, n),
    decreases n,
{
    if i < n {
        lemma_total_grows(sources, i, (n - 1) as nat);
    }
}

/// Merges workbooks: all their sheets under names of their own, or all rows in one
/// sheet.
pub fn op_sheet_merge(sources: &Vec<Vec<Sheet>>, rows_mode: bool) -> (r: Vec<Sheet>)
    requires
        sheet_total(sources.deep_view(), sources@.len()) < usize::MAX - 2,
    ensures
        r.deep_view() == (if rows_mode {
            seq![("Merged"@, merged_rows(sources.deep_view(), sources@.len()))]
        } else {
            merged_sheets(sources.deep_view(), sources@.len())
        }),
{
    let ghost sv = sources.deep_view();
    assert(sv.len() == sources@.len());
    let mut sheets: Vec<Sheet> = Vec::new();
    let mut combined: Rows = Vec::new();
    let mut i: usize = 0;
    assert(sheets.deep_view() =~= Seq::<SheetView>::empty());
    assert(combined.deep_view() =~= Seq::<Seq<Json>>::empty());
    while i < sources.len()
        invariant
            i <= sources@.len(),
            sv == sources.deep_view(),
            sv.len() == sources@.len(),
            sheet_total(sv, sources@.len()) < usize::MAX - 2,
            sheets@.len() == (if rows_mode { 0 } else { sheet_total(sv, i as nat) }),
            !rows_mode ==> sheets.deep_view() == merged_sheets(sv, i as nat),
            rows_mode ==> combined.deep_view() == merged_rows(sv, i as nat),
            rows_mode ==> sheets.deep_view() == Seq::<SheetView>::empty(),
        decreases sources@.len() - i,
    {
        assert(sv[i as int] == sources@[i as int].deep_view());
        assert(sources@[i as int].deep_view().len() == sources@[i as int]@.len());
        if rows_mode {
            let mut k: usize = 0;
            let ghost base = combined.deep_view();
            let ghost here = sv[i as int];
            assert(combined.deep_view() =~= base + stacked(here, 0));
            while k < sources[i].len()
                invariant
                    i < sources@.len(),
                    k <= sources@[i as int]@.len(),
                    here == sources@[i as int].deep_view(),
                    combined.deep_view() == base + stacked(here, k as nat),
                decreases sources@[i as int]@.len() - k,
            {
                assert(here[k as int] == sources@[i as int]@[k as int].deep_view());
                append_deep(&mut combined, copy_rows(&sources[i][k].1));
                k = k + 1;
                assert(combined.deep_view() =~= base + stacked(here, k as nat));
            }
        } else {
            proof {
                lemma_total_grows(sv, (i + 1) as nat, sv.len());
            }
            add_source(&mut sheets, &sources[i]);
        }
        i = i + 1;
    }
    if rows_mode {
        let item = (copy_text("Merged"), combined);
        assert(item.deep_view() == ("Merged"@, merged_rows(sv, sv.len())));
        push_deep(&mut sheets, item);
        assert(sheets.deep_view() =~= seq![("Merged"@, merged_rows(sv, sv.len()))]);
    }
    sheets
}

proof fn lemma_numbered_differ(base: Seq<char>, a: nat, b: nat)
    requires
        a != b,
    ensures
        numbered_name(base, a) != numbered_name(base, b),
{
    let x = numbered_name(base, a);
    let y = numbered_name(base, b);
    if x == y {
        let da = decimal(a);
        let db = decimal(b);
        assert(x.len() == base.len() + " ("@.len() + da.len() + ")"@.len());
        assert(y.len() == base.len() + " ("@.len() + db.len() + ")"@.len());
        let from = base.len() + " ("@.len();
        assert(x.subrange(from as int, (from + da.len()) as int) =~= da);
        assert(y.subrange(from as int, (from + db.len()) as int) =~= db);
        crate::text::lemma_decimal_digits(a);
        crate::text::lemma_decimal_digits(b);
    }
}

proof fn lemma_free(base: Seq<char>, used: Seq<Seq<char>>, k: nat, fuel: nat)
    requires
        2 <= k,
        k + fuel == used.len() + 2,
        forall|j: nat| 2 <= j < k ==> used.contains(#[trigger] numbered_name(base, j)),
    ensures
        !used.contains(free_name(base, used, k, fuel)),
    decreases fuel,
{
    if used.contains(numbered_name(base, k)) {
        if fuel > 0 {
            lemma_free(base, used, k + 1, (fuel - 1) as nat);
        } else {
            let tries = Seq::new((used.len() + 1) as nat, |i: int| numbered_name(base, (i + 2) as nat));
            assert(tries.no_duplicates()) by {
                assert forall|a: int, b: int|
                    0 <= a < tries.len() && 0 <= b < tries.len() && a != b implies tries[a]
                    != tries[b] by {
                    lemma_numbered_differ(base, (a + 2) as nat, (b + 2) as nat);
                }
            }
            tries.unique_seq_to_set();
            assert(tries.to_set().subset_of(used.to_set())) by {
                assert forall|t: Seq<char>| tries.to_set().contains(t) implies used.to_set().contains(
                    t,
                ) by {
                    let i = choose|i: int| 0 <= i < tries.len() && tries[i] == t;
                    assert(used.contains(numbered_name(base, (i + 2) as nat)));
                }
            }
            used.lemma_cardinality_of_set();
            vstd::set_lib::lemma_len_subset(tries.to_set(), used.to_set());
        }
    }
}

proof fn lemma_source_names(sheets: Seq<SheetView>, more: Seq<SheetView>, n: nat)
    requires
        names_of(sheets).no_duplicates(),
        n <= more.len(),
    ensures
        names_of(with_source(sheets, more, n)).no_duplicates(),
        with_source(sheets, more, n).len() == sheets.len() + n,
    decreases n,
{
    if n > 0 {
        lemma_source_names(sheets, more, (n - 1) as nat);
        let before = with_source(sheets, more, (n - 1) as nat);
        let used = names_of(before);
        let base = more[n - 1].0;
        if used.contains(base) {
            lemma_free(base, used, 2, used.len());
        }
        let now = names_of(with_source(sheets, more, n));
        assert(now =~= used.push(fresh_name(base, used)));
        assert forall|a: int, b: int| 0 <= a < now.len() && 0 <= b < now.len() && a != b implies now[a]
            != now[b] by {
            if a < used.len() && b < used.len() {
                assert(used[a] != used[b]);
            } else if a < used.len() {
                assert(used.contains(used[a]));
            } else {
                assert(used.contains(used[b]));
            }
        }
    }
}

/// Merged sheets have names of their own: none comes twice.
pub proof fn merged_names_are_distinct(sources: Seq<Seq<SheetView>>, n: nat)
    requires
        n <= sources.len(),
    ensures
        names_of(merged_sheets(sources, n)).no_duplicates(),
        merged_sheets(sources, n).len() == sheet_total(sources, n),
    decreases n,
{
    if n > 0 {
        merged_names_are_distinct(sources, (n - 1) as nat);
        lemma_source_names(
            merged_sheets(sources, (n - 1) as nat),
            sources[n - 1],
            sources[n - 1].len(),
        );
    }
}

/// The records of the first `n` sources.
pub open spec fn all_records(sources: Seq<Seq<Json>>, n: nat) -> Seq<Json>
    decreases n,
{
    if n == 0 || n > sources.len() {
        Seq::empty()
    } else {
        all_records(sources, (n - 1) as nat) + sources[n - 1]
    }
}

/// Sheets brought together by field names: the fields of all records, and their rows.
pub fn op_sheet_union(sources: &Vec<Vec<Value>>) -> (r: (Vec<String>, Rows))
    ensures
        ({
            let recs = all_records(sources.deep_view(), sources@.len());
            let fields = wanted_fields(None, recs);
            r.0.deep_view() == fields && r.1.deep_view() == record_rows(fields, recs)
        }),
{
    let ghost sv = sources.deep_view();
    let mut all: Vec<Value> = Vec::new();
    let mut i: usize = 0;
    assert(all.deep_view() =~= Seq::<Json>::empty());
    while i < sources.len()
        invariant
            i <= sources@.len(),
            sv == sources.deep_view(),
            all.deep_view() == all_records(sv, i as nat),
        decreases sources@.len() - i,
    {
        assert(sv[i as int] == sources@[i as int].deep_view());
        append_deep(&mut all, crate::value::copy_values(&sources[i]));
        i = i + 1;
    }
    op_records_write(&all, None)
}

// ── descriptions ────────────────────────────────────────────────────────────

/// The description of a sheet: its name, its rows and its columns.
pub open spec fn sheet_facts(s: SheetView) -> Json {
    Json::Object(
        seq![
            ("name"@, Json::Text(s.0)),
            ("rows"@, unsigned(s.1.len() as u64)),
            ("cols"@, unsigned(widest(s.1, s.1.len()) as u64)),
        ],
    )
}

/// The descriptions of the sheets of a workbook.
pub fn op_sheet_info(sheets: &Vec<Sheet>) -> (r: Vec<Value>)
    ensures
        r.deep_view() == Seq::new(
            sheets.deep_view().len(),
            |i: int| sheet_facts(sheets.deep_view()[i]),
        ),
{
    let ghost sv = sheets.deep_view();
    let fact = |i: usize| -> (v: Value)
        requires
            i < sheets@.len(),
        ensures
            v.deep_view() == sheet_facts(sheets@[i as int].deep_view()),
        {
            let mut o: Vec<(String, Value)> = Vec::new();
            assert(sheets@[i as int].1.deep_view().len() == sheets@[i as int].1@.len());
            add_member(&mut o, "name", text_value(sheets[i].0.as_str()));
            add_member(&mut o, "rows", count_value(sheets[i].1.len()));
            add_member(&mut o, "cols", count_value(count_columns(&sheets[i].1)));
            assert(o.deep_view() =~= sheet_facts(sheets@[i as int].deep_view())->Object_0);
            object(o)
        };
    let ghost g = |i: int| sheet_facts(sv[i]);
    assert(sv.len() == sheets@.len());
    assert forall|i: usize| i < sheets@.len() implies sv[i as int] == (#[trigger] sheets@[
        i as int
    ]).deep_view() by {}
    tabulate(sheets.len(), &fact, Ghost(g))
}

/// What kind of file an extension stands for.
#[derive(PartialEq, Eq, Structural, Clone, Copy)]
pub enum FileKind {
    Pdf,
    Spreadsheet,
    Document,
    Presentation,
    Image,
}

pub open spec fn kind_of_file(ext: Seq<char>) -> Option<FileKind> {
    if ext == "pdf"@ {
        Some(FileKind::Pdf)
    } else if ext == "xlsx"@ || ext == "ods"@ || ext == "xls"@ || ext == "csv"@ || ext == "tsv"@ {
        Some(FileKind::Spreadsheet)
    } else if ext == "docx"@ || ext == "odt"@ || ext == "rtf"@ || ext == "md"@ || ext
        == "markdown"@ || ext == "html"@ || ext == "htm"@ || ext == "txt"@ {
        Some(FileKind::Document)
    } else if ext == "pptx"@ || ext == "odp"@ {
        Some(FileKind::Presentation)
    } else if ext == "png"@ || ext == "jpg"@ || ext == "jpeg"@ || ext == "gif"@ || ext == "bmp"@
        || ext == "webp"@ || ext == "tif"@ || ext == "tiff"@ || ext == "avif"@ || ext == "ico"@ {
        Some(FileKind::Image)
    } else {
        None
    }
}

/// The kind of file that an extension stands for.
pub fn op_info(ext: &str) -> (r: Result<FileKind, String>)
    ensures
        match kind_of_file(ext@) {
            Some(k) => r is Ok && r->Ok_0 == k,
            None => r is Err && r->Err_0@ == "unsupported file type: "@ + ext@,
        },
{
    if same(ext, "pdf") {
        Ok(FileKind::Pdf)
    } else if same(ext, "xlsx") || same(ext, "ods") || same(ext, "xls") || same(ext, "csv")
        || same(ext, "tsv") {
        Ok(FileKind::Spreadsheet)
    } else if same(ext, "docx") || same(ext, "odt") || same(ext, "rtf") || same(ext, "md") || same(
        ext,
        "markdown",
    ) || same(ext, "html") || same(ext, "htm") || same(ext, "txt") {
        Ok(FileKind::Document)
    } else if same(ext, "pptx") || same(ext, "odp") {
        Ok(FileKind::Presentation)
    } else if same(ext, "png") || same(ext, "jpg") || same(ext, "jpeg") || same(ext, "gif")
        || same(ext, "bmp") || same(ext, "webp") || same(ext, "tif") || same(ext, "tiff") || same(
        ext,
        "avif",
    ) || same(ext, "ico") {
        Ok(FileKind::Image)
    } else {
        Err(concat2("unsupported file type: ", ext))
    }
}

// ── comparing ───────────────────────────────────────────────────────────────

/// A cell that differs: where it is, and what each side holds.
pub open spec fn cell_change(r: int, c: int, left: Json, right: Json) -> Json {
    Json::Object(
        seq![
            ("ref"@, Json::Text(letters_of(c + 1) + decimal((r + 1) as nat))),
            ("row"@, unsigned((r + 1) as u64)),
            ("col"@, unsigned((c + 1) as u64)),
            ("left"@, left),
            ("right"@, right),
        ],
    )
}

/// The length of row `r`, zero where there is none.
pub open spec fn width_of(rows: RowsView, r: int) -> int {
    if 0 <= r < rows.len() {
        rows[r].len() as int
    } else {
        0
    }
}

/// The changes among the first `n` cells of row `r`: those whose texts differ.
pub open spec fn row_changes(left: RowsView, right: RowsView, r: int, n: nat) -> Seq<Json>
    decreases n,
{
    if n == 0 {
        Seq::empty()
    } else {
        let before = row_changes(left, right, r, (n - 1) as nat);
        let a = read_cell(left, r, n - 1);
        let b = read_cell(right, r, n - 1);
        if cell_text(a) != cell_text(b) {
            before.push(cell_change(r, n - 1, a, b))
        } else {
            before
        }
    }
}

/// The changes in the first `n` rows.
pub open spec fn changes(left: RowsView, right: RowsView, n: nat) -> Seq<Json>
    decreases n,
{
    if n == 0 {
        Seq::empty()
    } else {
        changes(left, right, (n - 1) as nat) + row_changes(
            left,
            right,
            n - 1,
            max2(width_of(left, n - 1), width_of(right, n - 1)) as nat,
        )
    }
}

fn find_width(rows: &Rows, r: usize) -> (w: usize)
    ensures
        w == width_of(rows.deep_view(), r as int),
{
    if r < rows.len() {
        assert(rows.deep_view()[r as int] == rows@[r as int].deep_view());
        rows[r].len()
    } else {
        0
    }
}

fn push_row_changes(out: &mut Vec<Value>, left: &Rows, right: &Rows, r: usize)
    requires
        r < usize::MAX,
    ensures
        final(out).deep_view() == old(out).deep_view() + row_changes(
            left.deep_view(),
            right.deep_view(),
            r as int,
            max2(
                width_of(left.deep_view(), r as int),
                width_of(right.deep_view(), r as int),
            ) as nat,
        ),
{
    let ghost before = out.deep_view();
    let ghost lv = left.deep_view();
    let ghost rv = right.deep_view();
    let wl: usize = find_width(left, r);
    let wr: usize = find_width(right, r);
    let n: usize = if wl > wr {
        wl
    } else {
        wr
    };
    let mut c: usize = 0;
    assert(out.deep_view() =~= before + row_changes(lv, rv, r as int, 0));
    while c < n
        invariant
            c <= n,
            r < usize::MAX,
            lv == left.deep_view(),
            rv == right.deep_view(),
            out.deep_view() == before + row_changes(lv, rv, r as int, c as nat),
        decreases n - c,
    {
        let a = get_cell(left, r, c);
        let b = get_cell(right, r, c);
        if !same(cell_to_string(&a).as_str(), cell_to_string(&b).as_str()) {
            let ghost change = cell_change(r as int, c as int, a.deep_view(), b.deep_view());
            let mut reference = col_letters(c);
            push_decimal(&mut reference, (r + 1) as u64);
            let mut o: Vec<(String, Value)> = Vec::new();
            add_member(&mut o, "ref", Value::Text(reference));
            add_member(&mut o, "row", count_value(r + 1));
            add_member(&mut o, "col", count_value(c + 1));
            add_member(&mut o, "left", a);
            add_member(&mut o, "right", b);
            assert(o.deep_view() =~= change->Object_0);
            push_deep(out, object(o));
        }
        c = c + 1;
        assert(out.deep_view() =~= before + row_changes(lv, rv, r as int, c as nat));
    }
}

/// The cells in which two sheets differ.
pub fn op_sheet_diff(left: &Rows, right: &Rows) -> (r: Vec<Value>)
    ensures
        r.deep_view() == changes(
            left.deep_view(),
            right.deep_view(),
            max2(left@.len() as int, right@.len() as int) as nat,
        ),
{
    let ghost lv = left.deep_view();
    let ghost rv = right.deep_view();
    let n: usize = if left.len() > right.len() {
        left.len()
    } else {
        right.len()
    };
    let mut out: Vec<Value> = Vec::new();
    let mut i: usize = 0;
    assert(out.deep_view() =~= Seq::<Json>::empty());
    while i < n
        invariant
            i <= n,
            lv == left.deep_view(),
            rv == right.deep_view(),
            out.deep_view() == changes(lv, rv, i as nat),
        decreases n - i,
    {
        push_row_changes(&mut out, left, right, i);
        i = i + 1;
    }
    out
}

proof fn lemma_no_row_changes(rows: RowsView, r: int, n: nat)
    ensures
        row_changes(rows, rows, r, n).len() == 0,
    decreases n,
{
    if n > 0 {
        lemma_no_row_changes(rows, r, (n - 1) as nat);
    }
}

/// A sheet does not differ from itself.
pub proof fn same_sheets_have_no_changes(rows: RowsView, n: nat)
    ensures
        changes(rows, rows, n).len() == 0,
    decreases n,
{
    if n > 0 {
        same_sheets_have_no_changes(rows, (n - 1) as nat);
        lemma_no_row_changes(
            rows,
            n - 1,
            max2(width_of(rows, n - 1), width_of(rows, n - 1)) as nat,
        );
    }
}

// ── slides out of rows ──────────────────────────────────────────────────────

/// The text of a field of a record; empty where it is missing.
pub open spec fn record_text(rec: Json, f: Seq<char>) -> Seq<char> {
    cell_text(
        match field(rec, f) {
            Some(v) => v,
            None => Json::Null,
        },
    )
}

fn text_of_field(rec: &Value, f: &str) -> (r: String)
    ensures
        r@ == record_text(rec.deep_view(), f@),
{
    match rec.get(f) {
        Some(v) => cell_to_string(v),
        None => cell_to_string(&Value::Null),
    }
}

/// The body lines of the first `n` fields but the title.
pub open spec fn body_lines(rec: Json, fields: Seq<Seq<char>>, title: Seq<char>, n: nat) -> Seq<Json>
    decreases n,
{
    if n == 0 || n > fields.len() {
        Seq::empty()
    } else {
        let before = body_lines(rec, fields, title, (n - 1) as nat);
        if fields[n - 1] == title {
            before
        } else {
            before.push(Json::Text(fields[n - 1] + ": "@ + record_text(rec, fields[n - 1])))
        }
    }
}

/// The slide of a record.
pub open spec fn record_slide(rec: Json, fields: Seq<Seq<char>>, title: Seq<char>) -> Json {
    Json::Object(
        seq![
            ("title"@, Json::Text(record_text(rec, title))),
            ("body"@, Json::Array(body_lines(rec, fields, title, fields.len()))),
        ],
    )
}

/// The field that gives the titles: the one asked for, or the first.
pub open spec fn title_field(asked: Option<Seq<char>>, fields: Seq<Seq<char>>) -> Seq<char> {
    match asked {
        Some(t) => t,
        None => if fields.len() > 0 {
            fields[0]
        } else {
            Seq::empty()
        },
    }
}

fn make_record_slide(rec: &Value, fields: &Vec<String>, title: &str) -> (r: Value)
    ensures
        r.deep_view() == record_slide(rec.deep_view(), fields.deep_view(), title@),
{
    let ghost fv = fields.deep_view();
    assert(fv.len() == fields@.len());
    let mut body: Vec<Value> = Vec::new();
    let mut i: usize = 0;
    assert(body.deep_view() =~= Seq::<Json>::empty());
    while i < fields.len()
        invariant
            i <= fields@.len(),
            fv == fields.deep_view(),
            body.deep_view() == body_lines(rec.deep_view(), fv, title@, i as nat),
        decreases fields@.len() - i,
    {
        assert(fv[i as int] == fields@[i as int]@);
        if !same(fields[i].as_str(), title) {
            let v = text_of_field(rec, fields[i].as_str());
            push_deep(&mut body, Value::Text(concat3(fields[i].as_str(), ": ", v.as_str())));
        }
        i = i + 1;
    }
    let mut o: Vec<(String, Value)> = Vec::new();
    add_member(&mut o, "title", Value::Text(text_of_field(rec, title)));
    add_member(&mut o, "body", array(body));
    assert(o.deep_view() =~= record_slide(rec.deep_view(), fv, title@)->Object_0);
    object(o)
}

/// The slides of records, one each.
pub fn op_sheet_to_slides(fields: &Vec<String>, records: &Vec<Value>, asked: Option<&str>) -> (r: Vec<
    Value,
>)
    ensures
        ({
            let fv = fields.deep_view();
            let title = title_field(
                match asked {
                    Some(t) => Some(t@),
                    None => None,
                },
                fv,
            );
            r.deep_view() == Seq::new(
                records.deep_view().len(),
                |i: int| record_slide(records.deep_view()[i], fv, title),
            )
        }),
{
    let ghost fv = fields.deep_view();
    let ghost rv = records.deep_view();
    assert(fv.len() == fields@.len());
    let title = match asked {
        Some(t) => copy_text(t),
        None => if fields.len() > 0 {
            assert(fv[0] == fields@[0]@);
            fields[0].clone()
        } else {
            let none = String::new();
            assert(none@ =~= Seq::<char>::empty());
            none
        },
    };
    let make = |i: usize| -> (v: Value)
        requires
            i < records@.len(),
        ensures
            v.deep_view() == record_slide(
                records@[i as int].deep_view(),
                fields.deep_view(),
                title@,
            ),
        { make_record_slide(&records[i], fields, title.as_str()) };
    let ghost g = |i: int| record_slide(rv[i], fv, title@);
    assert(rv.len() == records@.len());
    assert forall|i: usize| i < records@.len() implies rv[i as int] == (#[trigger] records@[
        i as int
    ]).deep_view() by {}
    tabulate(records.len(), &make, Ghost(g))
}

// ── file names ──────────────────────────────────────────────────────────────

/// A sheet name made fit for a file name: what is no letter, digit, hyphen, underscore
/// or blank becomes an underscore; blanks at the ends are cut off.
pub open spec fn safe_name(s: Seq<char>) -> Seq<char> {
    trim(
        Seq::new(
            s.len(),
            |i: int|
                if is_alnum(s[i]) || s[i] == '-' || s[i] == '_' || s[i] == ' ' {
                    s[i]
                } else {
                    '_'
                },
        ),
    )
}

fn make_safe_name(name: &str) -> (r: String)
    ensures
        r@ == safe_name(name@),
{
    let cs = chars_of(name);
    let ghost all = Seq::new(
        name@.len(),
        |i: int|
            if is_alnum(name@[i]) || name@[i] == '-' || name@[i] == '_' || name@[i] == ' ' {
                name@[i]
            } else {
                '_'
            },
    );
    let mut safe = String::new();
    let mut i: usize = 0;
    while i < cs.len()
        invariant
            i <= cs@.len(),
            cs@ == name@,
            all == Seq::new(
                name@.len(),
                |i: int|
                    if is_alnum(name@[i]) || name@[i] == '-' || name@[i] == '_' || name@[i] == ' ' {
                        name@[i]
                    } else {
                        '_'
                    },
            ),
            safe@ == all.take(i as int),
        decreases cs@.len() - i,
    {
        let c = cs[i];
        if char_is_alnum(c) || c == '-' || c == '_' || c == ' ' {
            safe.push(c);
        } else {
            safe.push('_');
        }
        i = i + 1;
        assert(safe@ =~= all.take(i as int));
    }
    assert(all.take(i as int) =~= all);
    trim_text(safe.as_str())
}

/// The first `n` of names, each followed by a number where it is taken.
pub open spec fn fresh_names(bases: Seq<Seq<char>>, n: nat) -> Seq<Seq<char>>
    decreases n,
{
    if n == 0 || n > bases.len() {
        Seq::empty()
    } else {
        let before = fresh_names(bases, (n - 1) as nat);
        before.push(fresh_name(bases[n - 1], before))
    }
}

proof fn lemma_fresh_names(bases: Seq<Seq<char>>, n: nat)
    requires
        n <= bases.len(),
    ensures
        fresh_names(bases, n).len() == n,
        fresh_names(bases, n).no_duplicates(),
    decreases n,
{
    if n > 0 {
        lemma_fresh_names(bases, (n - 1) as nat);
        let used = fresh_names(bases, (n - 1) as nat);
        let base = bases[n - 1];
        if used.contains(base) {
            lemma_free(base, used, 2, used.len());
        }
        let now = fresh_names(bases, n);
        assert forall|a: int, b: int| 0 <= a < now.len() && 0 <= b < now.len() && a != b implies now[a]
            != now[b] by {
            if a < used.len() && b < used.len() {
                assert(used[a] != used[b]);
            } else if a < used.len() {
                assert(used.contains(used[a]));
            } else {
                assert(used.contains(used[b]));
            }
        }
    }
}

/// The path of a file.
pub open spec fn file_path(
    dir: Seq<char>,
    prefix: Seq<char>,
    stem: Seq<char>,
    ext: Seq<char>,
) -> Seq<char> {
    dir + "/"@ + prefix + stem + "."@ + ext
}

/// The paths of files with given names, each followed by a number where it is taken.
pub open spec fn file_paths(
    dir: Seq<char>,
    prefix: Seq<char>,
    bases: Seq<Seq<char>>,
    ext: Seq<char>,
) -> Seq<Seq<char>> {
    let stems = fresh_names(bases, bases.len());
    Seq::new(stems.len(), |i: int| file_path(dir, prefix, stems[i], ext))
}

proof fn lemma_stems_differ(
    dir: Seq<char>,
    prefix: Seq<char>,
    a: Seq<char>,
    b: Seq<char>,
    ext: Seq<char>,
)
    requires
        a != b,
    ensures
        file_path(dir, prefix, a, ext) != file_path(dir, prefix, b, ext),
{
    let x = file_path(dir, prefix, a, ext);
    let y = file_path(dir, prefix, b, ext);
    if x == y {
        let from = dir.len() + "/"@.len() + prefix.len();
        assert(x.len() == from + a.len() + "."@.len() + ext.len());
        assert(y.len() == from + b.len() + "."@.len() + ext.len());
        assert(x.subrange(from as int, (from + a.len()) as int) =~= a);
        assert(y.subrange(from as int, (from + b.len()) as int) =~= b);
    }
}

/// No two of the files that a sheet or a workbook is split into have one path, whatever
/// their names are made of.
pub proof fn file_paths_differ(
    dir: Seq<char>,
    prefix: Seq<char>,
    bases: Seq<Seq<char>>,
    ext: Seq<char>,
)
    ensures
        file_paths(dir, prefix, bases, ext).len() == bases.len(),
        file_paths(dir, prefix, bases, ext).no_duplicates(),
{
    lemma_fresh_names(bases, bases.len());
    let stems = fresh_names(bases, bases.len());
    let paths = file_paths(dir, prefix, bases, ext);
    assert forall|a: int, b: int|
        0 <= a < paths.len() && 0 <= b < paths.len() && a != b implies paths[a] != paths[b] by {
        lemma_stems_differ(dir, prefix, stems[a], stems[b], ext);
    }
}

pub(crate) fn make_file_paths(dir: &str, prefix: &str, bases: &Vec<String>, ext: &str) -> (r: Vec<
    String,
>)
    requires
        bases@.len() < usize::MAX - 2,
    ensures
        r.deep_view() == file_paths(dir@, prefix@, bases.deep_view(), ext@),
        r.deep_view().no_duplicates(),
        r@.len() == bases@.len(),
{
    let ghost bv = bases.deep_view();
    let mut stems: Vec<String> = Vec::new();
    let mut out: Vec<String> = Vec::new();
    let mut i: usize = 0;
    proof {
        assert(bv.len() == bases@.len());
        file_paths_differ(dir@, prefix@, bv, ext@);
        assert(stems.deep_view() =~= Seq::<Seq<char>>::empty());
        assert(out.deep_view() =~= Seq::<Seq<char>>::empty());
    }
    while i < bases.len()
        invariant
            i <= bases@.len(),
            bases@.len() < usize::MAX - 2,
            bv == bases.deep_view(),
            bv.len() == bases@.len(),
            stems.deep_view() == fresh_names(bv, i as nat),
            stems@.len() == i,
            out.deep_view() == Seq::new(
                i as nat,
                |k: int| file_path(dir@, prefix@, fresh_names(bv, i as nat)[k], ext@),
            ),
        decreases bases@.len() - i,
    {
        assert(bv[i as int] == bases@[i as int]@);
        let ghost before = fresh_names(bv, i as nat);
        let ghost paths = out.deep_view();
        assert(before.len() == i);
        let stem = make_fresh(bases[i].as_str(), &stems);
        let mut path = concat3(dir, "/", prefix);
        path.push_str(stem.as_str());
        path.push_str(".");
        path.push_str(ext);
        push_deep(&mut out, path);
        push_deep(&mut stems, stem);
        i = i + 1;
        proof {
            let now = fresh_names(bv, i as nat);
            assert(now == before.push(now.last()));
            assert(out.deep_view() =~= Seq::new(
                i as nat,
                |k: int| file_path(dir@, prefix@, now[k], ext@),
            ));
        }
    }
    assert(out.deep_view() =~= file_paths(dir@, prefix@, bv, ext@));
    out
}

pub open spec fn safe_names(names: Seq<Seq<char>>) -> Seq<Seq<char>> {
    Seq::new(names.len(), |i: int| safe_name(names[i]))
}

/// The paths of the files that the sheets of a workbook are written to when it is split, no
/// two the same.
pub fn op_sheet_split(dir: &str, prefix: &str, names: &Vec<String>, ext: &str) -> (r: Vec<String>)
    requires
        names@.len() < usize::MAX - 2,
    ensures
        r.deep_view() == file_paths(dir@, prefix@, safe_names(names.deep_view()), ext@),
        r.deep_view().no_duplicates(),
        r@.len() == names@.len(),
{
    let ghost nv = names.deep_view();
    let mut bases: Vec<String> = Vec::new();
    let mut i: usize = 0;
    assert(bases.deep_view() =~= safe_names(nv).take(0));
    while i < names.len()
        invariant
            i <= names@.len(),
            nv == names.deep_view(),
            nv.len() == names@.len(),
            bases@.len() == i,
            bases.deep_view() == safe_names(nv).take(i as int),
        decreases names@.len() - i,
    {
        assert(nv[i as int] == names@[i as int]@);
        push_deep(&mut bases, make_safe_name(names[i].as_str()));
        i = i + 1;
        assert(bases.deep_view() =~= safe_names(nv).take(i as int));
    }
    assert(bases.deep_view() =~= safe_names(nv));
    make_file_paths(dir, prefix, &bases, ext)
}

// ── what is done to sheets ──────────────────────────────────────────────────

/// Renaming changes one name and no rows; a sheet that is added stands at its place, or at the
/// end, and the others keep their order; a sheet that is removed is the one that was named,
/// and the others stay.
pub proof fn sheets_stay_but_for_one(
    sheets: Seq<SheetView>,
    t: int,
    name: Seq<char>,
    at: Option<u64>,
    s: SheetView,
    k: int,
)
    requires
        0 <= t < sheets.len(),
        0 <= k < sheets.len(),
    ensures
        renamed(sheets, t, name).len() == sheets.len(),
        renamed(sheets, t, name)[k] == if k == t {
            (name, sheets[k].1)
        } else {
            sheets[k]
        },
        ({
            let out = with_sheet(sheets, at, s);
            let p: int = match at {
                Some(p) => if p <= sheets.len() {
                    p as int
                } else {
                    sheets.len() as int
                },
                None => sheets.len() as int,
            };
            &&& out.len() == sheets.len() + 1
            &&& out[p] == s
            &&& k < p ==> out[k] == sheets[k]
            &&& k >= p ==> out[k + 1] == sheets[k]
        }),
        forall|sel: Option<Json>| #[trigger]
            without_sheet(sel, sheets) matches Ok((left, gone)) ==> ({
                let r = sheet_by(sel, sheets)->0;
                &&& gone == sheets[r].0
                &&& sheets.len() > 1
                &&& left.len() == sheets.len() - 1
                &&& k < r ==> left[k] == sheets[k]
                &&& k > r ==> left[k - 1] == sheets[k]
            }),
{
}

/// Sheets come in the order in which they are named, each as often as it is; what names none
/// is passed over.
pub proof fn orders_are_followed(order: Seq<Json>, sheets: Seq<SheetView>, n: nat)
    requires
        n <= order.len(),
    ensures
        in_given_order(order, sheets, n) == order.take(n as int).filter(
            |o: Json| (o is Text || o is Number) && sheet_by(Some(o), sheets) is Some,
        ).map_values(|o: Json| sheets[sheet_by(Some(o), sheets)->0]),
    decreases n,
{
    reveal(Seq::filter);
    let names = |o: Json| (o is Text || o is Number) && sheet_by(Some(o), sheets) is Some;
    let get = |o: Json| sheets[sheet_by(Some(o), sheets)->0];
    let part = order.take(n as int);
    if n > 0 {
        orders_are_followed(order, sheets, (n - 1) as nat);
        assert(part.drop_last() =~= order.take(n - 1));
        assert(part.last() == order[n - 1]);
        if names(order[n - 1]) {
            assert(part.filter(names).map_values(get) =~= part.drop_last().filter(
                names,
            ).map_values(get).push(get(order[n - 1])));
        }
    } else {
        assert(part.filter(names).map_values(get) =~= Seq::<SheetView>::empty());
    }
}

/// Merged sheets have the rows of their sources, one after the other, and keep the names that
/// are not taken.
pub proof fn merging_keeps_rows(sheets: Seq<SheetView>, more: Seq<SheetView>, n: nat, k: int)
    requires
        n <= more.len(),
        0 <= k < sheets.len() + n,
    ensures
        with_source(sheets, more, n).len() == sheets.len() + n,
        k < sheets.len() ==> with_source(sheets, more, n)[k] == sheets[k],
        k >= sheets.len() ==> with_source(sheets, more, n)[k].1 == more[k - sheets.len()].1,
        k >= sheets.len() && (forall|i: int|
            0 <= i < k ==> (#[trigger] with_source(sheets, more, n)[i]).0 != more[k
                - sheets.len()].0) ==> with_source(sheets, more, n)[k].0 == more[k
            - sheets.len()].0,
    decreases n,
{
    if n > 0 {
        let before = with_source(sheets, more, (n - 1) as nat);
        let now = with_source(sheets, more, n);
        lemma_source_len(sheets, more, (n - 1) as nat);
        if k < sheets.len() + n - 1 {
            merging_keeps_rows(sheets, more, (n - 1) as nat, k);
            assert(now[k] == before[k]);
            assert forall|i: int| 0 <= i < k implies (#[trigger] now[i]) == before[i] by {}
            if k >= sheets.len() && (forall|i: int|
                0 <= i < k ==> (#[trigger] now[i]).0 != more[k - sheets.len()].0) {
                assert forall|i: int| 0 <= i < k implies (#[trigger] before[i]).0 != more[k
                    - sheets.len()].0 by {
                    assert(now[i] == before[i]);
                }
            }
        } else {
            let name = more[n - 1].0;
            if forall|i: int| 0 <= i < k ==> (#[trigger] now[i]).0 != name {
                assert(!names_of(before).contains(name)) by {
                    if names_of(before).contains(name) {
                        let i = choose|i: int|
                            0 <= i < names_of(before).len() && names_of(before)[i] == name;
                        assert(now[i] == before[i]);
                    }
                }
            }
        }
    }
}

proof fn lemma_source_len(sheets: Seq<SheetView>, more: Seq<SheetView>, n: nat)
    requires
        n <= more.len(),
    ensures
        with_source(sheets, more, n).len() == sheets.len() + n,
    decreases n,
{
    if n > 0 {
        lemma_source_len(sheets, more, (n - 1) as nat);
    }
}

/// Whether two sheets show something else in a cell.
pub open spec fn differ_at(left: RowsView, right: RowsView, r: int, c: int) -> bool {
    cell_text(held(left, r, c)) != cell_text(held(right, r, c))
}

/// What is said of a cell that differs: its reference, its row and column from 1, and what each
/// side holds.
pub open spec fn difference_at(left: RowsView, right: RowsView, r: int, c: int) -> Json {
    Json::Object(
        seq![
            ("ref"@, Json::Text(letters_of(c + 1) + decimal((r + 1) as nat))),
            ("row"@, Json::Number(Num::Unsigned((r + 1) as u64))),
            ("col"@, Json::Number(Num::Unsigned((c + 1) as u64))),
            ("left"@, held(left, r, c)),
            ("right"@, held(right, r, c)),
        ],
    )
}

proof fn lemma_row_changes(left: RowsView, right: RowsView, r: int, n: nat)
    ensures
        row_changes(left, right, r, n) == Seq::new(n, |c: int| c).filter(
            |c: int| differ_at(left, right, r, c),
        ).map_values(|c: int| difference_at(left, right, r, c)),
    decreases n,
{
    reveal(Seq::filter);
    let is = |c: int| differ_at(left, right, r, c);
    let tell = |c: int| difference_at(left, right, r, c);
    let all = Seq::new(n, |c: int| c);
    if n > 0 {
        lemma_row_changes(left, right, r, (n - 1) as nat);
        assert(all.drop_last() =~= Seq::new((n - 1) as nat, |c: int| c));
        assert(all.last() == n - 1);
        if is(n - 1) {
            assert(all.filter(is).map_values(tell) =~= all.drop_last().filter(is).map_values(
                tell,
            ).push(tell(n - 1)));
        }
    } else {
        assert(all.filter(is).map_values(tell) =~= Seq::<Json>::empty());
    }
}

/// The differences of two sheets in a row are told of just the cells that show something else,
/// from the left to the right, over the longer of the two rows.
pub proof fn differences_are_told_where_they_are(left: RowsView, right: RowsView, n: nat)
    requires
        n > 0,
    ensures
        ({
            let a: int = if n - 1 < left.len() {
                left[n - 1].len() as int
            } else {
                0
            };
            let b: int = if n - 1 < right.len() {
                right[n - 1].len() as int
            } else {
                0
            };
            let w: int = if a >= b {
                a
            } else {
                b
            };
            changes(left, right, n) == changes(left, right, (n - 1) as nat) + Seq::new(
                w as nat,
                |c: int| c,
            ).filter(|c: int| differ_at(left, right, n - 1, c)).map_values(
                |c: int| difference_at(left, right, n - 1, c),
            )
        }),
        changes(left, right, 0) == Seq::<Json>::empty(),
{
    lemma_row_changes(
        left,
        right,
        n - 1,
        max2(width_of(left, n - 1), width_of(right, n - 1)) as nat,
    );
}

/// The slide of a record has its title and a line for each other field, in order: the name, a
/// colon and the value.
pub proof fn record_slides_tell_their_fields(
    rec: Json,
    fields: Seq<Seq<char>>,
    title: Seq<char>,
    n: nat,
)
    requires
        n <= fields.len(),
    ensures
        body_lines(rec, fields, title, n) == fields.take(n as int).filter(
            |f: Seq<char>| f != title,
        ).map_values(
            |f: Seq<char>|
                Json::Text(
                    f + ": "@ + cell_text(
                        match field(rec, f) {
                            Some(v) => v,
                            None => Json::Null,
                        },
                    ),
                ),
        ),
    decreases n,
{
    reveal(Seq::filter);
    let keep = |f: Seq<char>| f != title;
    let tell = |f: Seq<char>|
        Json::Text(
            f + ": "@ + cell_text(
                match field(rec, f) {
                    Some(v) => v,
                    None => Json::Null,
                },
            ),
        );
    let part = fields.take(n as int);
    if n > 0 {
        record_slides_tell_their_fields(rec, fields, title, (n - 1) as nat);
        assert(part.drop_last() =~= fields.take(n - 1));
        assert(part.last() == fields[n - 1]);
        if keep(fields[n - 1]) {
            assert(part.filter(keep).map_values(tell) =~= part.drop_last().filter(
                keep,
            ).map_values(tell).push(tell(fields[n - 1])));
        }
    } else {
        assert(part.filter(keep).map_values(tell) =~= Seq::<Json>::empty());
    }
}

} // verus!
