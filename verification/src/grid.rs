//! Rows of cells: cell references, reading and writing cells and ranges, and
//! rows and columns put in and taken out.

use crate::deep::push_deep;
use crate::formats::{Sheet, SheetView};
use crate::text::{
    char_is_digit, char_is_letter, char_upper, chars_of, concat2, copy_text, decimal, find_char,
    is_digit, is_letter, lemma_decimal_digits, next_char, parse_nat, parse_u64_at, push_decimal,
    same, slice_text, trim, trim_bounds, upper_char,
};
use crate::value::{
    as_array, cell_text, cell_to_string, copy_values, field, flag_at, opt_flag, opt_json, Json, Num,
    Number, Value,
};
use vstd::prelude::*;

verus! {

/// Rows of cells.
pub type Rows = Vec<Vec<Value>>;

/// What rows of cells stand for.
pub type RowsView = Seq<Seq<Json>>;

// ── choosing a sheet ────────────────────────────────────────────────────────

/// The first sheet, from `i` on, with a name, or the number of sheets.
pub open spec fn sheet_pos(sheets: Seq<SheetView>, name: Seq<char>, i: int) -> int
    decreases sheets.len() - i,
{
    if 0 <= i < sheets.len() && sheets[i].0 != name {
        sheet_pos(sheets, name, i + 1)
    } else {
        i
    }
}

/// The sheet that a selector names: by name, by number from 0, or the first where it is
/// of no such kind.
pub open spec fn sheet_by(sel: Option<Json>, sheets: Seq<SheetView>) -> Option<int> {
    let p = match sel {
        Some(Json::Text(name)) => sheet_pos(sheets, name, 0),
        Some(Json::Number(n)) => match n {
            Num::Unsigned(u) => u as int,
            _ => sheets.len() as int,
        },
        _ => 0,
    };
    if 0 <= p < sheets.len() {
        Some(p)
    } else {
        None
    }
}

pub fn find_sheet(sel: Option<&Value>, sheets: &Vec<Sheet>) -> (r: Option<usize>)
    ensures
        match r {
            Some(i) => i < sheets@.len() && sheet_by(opt_json(sel), sheets.deep_view()) == Some(
                i as int,
            ),
            None => sheet_by(opt_json(sel), sheets.deep_view()) is None,
        },
{
    let ghost sv = sheets.deep_view();
    let p: usize = match sel {
        Some(Value::Text(name)) => {
            let mut i: usize = 0;
            while i < sheets.len() && !same(sheets[i].0.as_str(), name.as_str())
                invariant
                    i <= sheets@.len(),
                    sv == sheets.deep_view(),
                    sheet_pos(sv, name@, 0) == sheet_pos(sv, name@, i as int),
                decreases sheets@.len() - i,
            {
                assert(sv[i as int] == sheets@[i as int].deep_view());
                i = i + 1;
            }
            proof {
                if i < sheets@.len() {
                    assert(sv[i as int] == sheets@[i as int].deep_view());
                }
            }
            i
        },
        Some(Value::Number(n)) => match n {
            Number::Unsigned(u) => if *u < sheets.len() as u64 {
                *u as usize
            } else {
                sheets.len()
            },
            _ => sheets.len(),
        },
        _ => 0,
    };
    if p < sheets.len() {
        Some(p)
    } else {
        None
    }
}

/// The sheet that the options choose.
pub open spec fn chosen(opts: Json, sheets: Seq<SheetView>) -> Option<int> {
    sheet_by(field(opts, "sheet"@), sheets)
}

pub fn choose_sheet(opts: &Value, sheets: &Vec<Sheet>) -> (r: Result<usize, String>)
    ensures
        match r {
            Ok(i) => i < sheets@.len() && chosen(opts.deep_view(), sheets.deep_view()) == Some(
                i as int,
            ),
            Err(e) => e@ == "sheet not found"@ && chosen(
                opts.deep_view(),
                sheets.deep_view(),
            ) is None,
        },
{
    match find_sheet(opts.get("sheet"), sheets) {
        Some(p) => Ok(p),
        None => Err(copy_text("sheet not found")),
    }
}

/// The sheets, with one empty sheet where there is none.
pub open spec fn at_least_one(sheets: Seq<SheetView>) -> Seq<SheetView> {
    if sheets.len() == 0 {
        seq![("Sheet1"@, Seq::empty())]
    } else {
        sheets
    }
}

/// The sheet to change, once there is at least one.
pub fn sheet_target_index(opts: &Value, sheets: &mut Vec<Sheet>) -> (r: Result<usize, String>)
    ensures
        final(sheets).deep_view() == at_least_one(old(sheets).deep_view()),
        match r {
            Ok(i) => i < final(sheets)@.len() && chosen(
                opts.deep_view(),
                final(sheets).deep_view(),
            ) == Some(i as int),
            Err(e) => e@ == "sheet not found"@ && chosen(
                opts.deep_view(),
                final(sheets).deep_view(),
            ) is None,
        },
{
    if sheets.len() == 0 {
        let rows: Rows = Vec::new();
        assert(rows.deep_view() =~= Seq::<Seq<Json>>::empty());
        push_deep(sheets, (copy_text("Sheet1"), rows));
        assert(sheets.deep_view().last() == ("Sheet1"@, Seq::<Seq<Json>>::empty()));
        assert(sheets.deep_view() =~= at_least_one(old(sheets).deep_view()));
    }
    choose_sheet(opts, sheets)
}

/// The sheets with new rows for one of them.
pub open spec fn with_rows(sheets: Seq<SheetView>, t: int, rows: RowsView) -> Seq<SheetView> {
    sheets.update(t, (sheets[t].0, rows))
}

pub fn set_rows(sheets: &mut Vec<Sheet>, t: usize, rows: Rows)
    requires
        t < old(sheets)@.len(),
    ensures
        final(sheets).deep_view() == with_rows(
            old(sheets).deep_view(),
            t as int,
            rows.deep_view(),
        ),
{
    let ghost before = sheets.deep_view();
    let name = sheets[t].0.clone();
    let ghost item = (name@, rows.deep_view());
    sheets.set(t, (name, rows));
    assert(before[t as int] == old(sheets)@[t as int].deep_view());
    assert forall|i: int| 0 <= i < sheets@.len() implies sheets.deep_view()[i] == with_rows(
        before,
        t as int,
        item.1,
    )[i] by {
        if i != t {
            assert(sheets@[i] == old(sheets)@[i]);
        }
    }
    assert(sheets.deep_view() =~= with_rows(before, t as int, item.1));
}

/// Whether the first row names the columns; it does unless the options say no.
pub open spec fn has_header(opts: Json) -> bool {
    flag_at(opts, "header"@) != Some(false)
}

pub fn header_flag(opts: &Value) -> (r: bool)
    ensures
        r == has_header(opts.deep_view()),
{
    match opt_flag(opts, "header") {
        Some(b) => b,
        None => true,
    }
}

/// The first row of data.
pub open spec fn data_start(header: bool, rows: RowsView) -> int {
    if header && rows.len() > 0 {
        1
    } else {
        0
    }
}

pub fn first_data_row(header: bool, rows: &Rows) -> (r: usize)
    ensures
        r == data_start(header, rows.deep_view()),
        r <= rows@.len(),
{
    if header && rows.len() > 0 {
        1
    } else {
        0
    }
}

/// Column `c` of a row; null where the row is shorter.
pub open spec fn cell_at(row: Seq<Json>, c: int) -> Json {
    if 0 <= c < row.len() {
        row[c]
    } else {
        Json::Null
    }
}

pub fn copy_cell(row: &Vec<Value>, c: usize) -> (r: Value)
    ensures
        r.deep_view() == cell_at(row.deep_view(), c as int),
{
    if c < row.len() {
        assert(row.deep_view()[c as int] == row@[c as int].deep_view());
        row[c].dup()
    } else {
        Value::Null
    }
}

/// A copy of rows.
pub fn copy_rows(rows: &Rows) -> (r: Rows)
    ensures
        r.deep_view() == rows.deep_view(),
{
    let mut out: Rows = Vec::new();
    let mut i: usize = 0;
    while i < rows.len()
        invariant
            i <= rows@.len(),
            out.deep_view() == rows.deep_view().take(i as int),
        decreases rows@.len() - i,
    {
        assert(rows.deep_view()[i as int] == rows@[i as int].deep_view());
        push_deep(&mut out, copy_values(&rows[i]));
        i = i + 1;
        assert(out.deep_view() =~= rows.deep_view().take(i as int));
    }
    assert(rows.deep_view().take(i as int) =~= rows.deep_view());
    out
}

/// The name of column `c`: the text of the header cell unless it is blank, else
/// `Col` and the number.
pub open spec fn column_title(header: bool, rows: RowsView, c: int) -> Seq<char> {
    let numbered = "Col"@ + decimal((c + 1) as nat);
    if header && rows.len() > 0 && c < rows[0].len() {
        let t = cell_text(rows[0][c]);
        if trim(t).len() > 0 {
            t
        } else {
            numbered
        }
    } else {
        numbered
    }
}

pub fn title_of_column(header: bool, rows: &Rows, c: usize) -> (r: String)
    requires
        c < usize::MAX,
    ensures
        r@ == column_title(header, rows.deep_view(), c as int),
{
    if header && rows.len() > 0 && c < rows[0].len() {
        assert(rows.deep_view()[0] == rows@[0].deep_view());
        assert(rows.deep_view()[0][c as int] == rows@[0]@[c as int].deep_view());
        let t = cell_to_string(&rows[0][c]);
        let cs = chars_of(t.as_str());
        let (a, b) = trim_bounds(&cs);
        if b > a {
            return t;
        }
    }
    let mut s = copy_text("Col");
    push_decimal(&mut s, (c + 1) as u64);
    s
}

// ── cell references ─────────────────────────────────────────────────────────

/// The first position at or after `i` that holds a digit, or the length.
pub open spec fn first_digit(s: Seq<char>, i: int) -> int
    decreases s.len() - i,
{
    if 0 <= i < s.len() && !is_digit(s[i]) {
        first_digit(s, i + 1)
    } else {
        i
    }
}

/// The value of the first `n` letters as a column number from 1.
pub open spec fn letters_value(s: Seq<char>, n: nat) -> Option<nat>
    decreases n,
{
    if n == 0 || n > s.len() {
        Some(0)
    } else {
        match letters_value(s, (n - 1) as nat) {
            Some(v) => if is_letter(s[n - 1]) {
                Some((v * 26 + (upper_char(s[n - 1]) as int - 'A' as int + 1)) as nat)
            } else {
                None
            },
            None => None,
        }
    }
}

/// The row and column, from 0, that a reference such as `B2` or `AA10` names.
/// Nothing for any other text, nor for numbers that no index can hold.
pub open spec fn cell_ref(s: Seq<char>) -> Option<(int, int)> {
    let t = trim(s);
    let p = first_digit(t, 0);
    if 0 < p < t.len() {
        match (
            letters_value(t.subrange(0, p), p as nat),
            parse_nat(t.subrange(p, t.len() as int), usize::MAX as nat),
        ) {
            (Some(col), Some(row)) => if 1 <= col <= usize::MAX && row >= 1 {
                Some((row - 1, col - 1))
            } else {
                None
            },
            _ => None,
        }
    } else {
        None
    }
}

proof fn lemma_letters_grow(s: Seq<char>, i: nat, n: nat)
    requires
        i <= n <= s.len(),
        letters_value(s, n) is Some,
    ensures
        letters_value(s, i) is Some,
        letters_value(s, i)->0 <= letters_value(s, n)->0,
    decreases n - i,
{
    if i < n {
        lemma_letters_grow(s, i, (n - 1) as nat);
        let v = letters_value(s, (n - 1) as nat)->0;
        let d = upper_char(s[n - 1]) as int - 'A' as int + 1;
        assert(1 <= d <= 26);
    }
}

pub fn parse_a1(s: &str) -> (r: Option<(usize, usize)>)
    ensures
        match r {
            Some(p) => cell_ref(s@) == Some((p.0 as int, p.1 as int)),
            None => cell_ref(s@) is None,
        },
{
    let all = chars_of(s);
    let (a, b) = trim_bounds(&all);
    let trimmed = slice_text(&all, a, b);
    let t = chars_of(trimmed.as_str());
    let mut p: usize = 0;
    while p < t.len() && !char_is_digit(t[p])
        invariant
            p <= t@.len(),
            first_digit(t@, 0) == first_digit(t@, p as int),
        decreases t@.len() - p,
    {
        p = p + 1;
    }
    if p == 0 || p >= t.len() {
        return None;
    }
    let ghost letters = t@.subrange(0, p as int);
    let mut col: usize = 0;
    let mut i: usize = 0;
    while i < p
        invariant
            i <= p < t@.len(),
            t@ == trim(s@),
            p == first_digit(t@, 0),
            letters == t@.subrange(0, p as int),
            letters_value(letters, i as nat) == Some(col as nat),
        decreases p - i,
    {
        assert(letters[i as int] == t@[i as int]);
        if !char_is_letter(t[i]) {
            proof {
                if letters_value(letters, p as nat) is Some {
                    lemma_letters_grow(letters, (i + 1) as nat, p as nat);
                }
            }
            return None;
        }
        let u = char_upper(t[i]);
        assert('A' <= u <= 'Z');
        let d: usize = (u as u32 - 64) as usize;
        if col > (usize::MAX - d) / 26 {
            proof {
                assert(col * 26 + d > usize::MAX) by (nonlinear_arith)
                    requires
                        col > (usize::MAX - d) / 26,
                        d <= 26,
                ;
                if letters_value(letters, p as nat) is Some {
                    lemma_letters_grow(letters, (i + 1) as nat, p as nat);
                }
            }
            return None;
        }
        assert(col * 26 + d <= usize::MAX) by (nonlinear_arith)
            requires
                col <= (usize::MAX - d) / 26,
                d <= 26,
        ;
        col = col * 26 + d;
        i = i + 1;
    }
    let row = match parse_u64_at(&t, p, t.len()) {
        Some(v) => v,
        None => {
            return None;
        },
    };
    if row > usize::MAX as u64 {
        return None;
    }
    if col == 0 || row == 0 {
        return None;
    }
    Some(((row - 1) as usize, col - 1))
}

/// The letters of a column number from 1.
pub open spec fn letters_of(n: int) -> Seq<char>
    decreases n,
{
    if n <= 0 {
        Seq::empty()
    } else {
        letters_of((n - 1) / 26).push((('A' as int) + (n - 1) % 26) as char)
    }
}

fn push_letters(out: &mut String, n: u128)
    ensures
        final(out)@ == old(out)@ + letters_of(n as int),
    decreases n,
{
    let ghost before = out@;
    if n > 0 {
        push_letters(out, (n - 1) / 26);
        let d: u8 = ((n - 1) % 26) as u8;
        out.push((65u8 + d) as char);
    }
    assert(out@ =~= before + letters_of(n as int));
}

/// The letters of column `col`, counted from 0: `A`, `B`, …, `Z`, `AA`, ….
pub fn col_letters(col: usize) -> (r: String)
    ensures
        r@ == letters_of(col + 1),
{
    let mut out = String::new();
    push_letters(&mut out, col as u128 + 1);
    assert(out@ =~= letters_of(col + 1));
    out
}

proof fn lemma_letters_back(n: int)
    requires
        n >= 0,
    ensures
        letters_value(letters_of(n), letters_of(n).len()) == Some(n as nat),
        forall|i: int| 0 <= i < letters_of(n).len() ==> 'A' <= #[trigger] letters_of(n)[i] <= 'Z',
        n > 0 ==> letters_of(n).len() > 0,
    decreases n,
{
    if n > 0 {
        let m = (n - 1) / 26;
        lemma_letters_back(m);
        let s = letters_of(m);
        let t = letters_of(n);
        lemma_letters_prefix(s, t, s.len());
        assert(t[t.len() - 1] == (('A' as int) + (n - 1) % 26) as char);
        assert('A' <= t[t.len() - 1] <= 'Z');
        assert(m * 26 + (n - 1) % 26 + 1 == n);
        assert forall|i: int| 0 <= i < t.len() implies 'A' <= #[trigger] t[i] <= 'Z' by {
            if i < s.len() {
                assert(t[i] == s[i]);
            }
        }
    }
}

proof fn lemma_letters_prefix(s: Seq<char>, t: Seq<char>, n: nat)
    requires
        n <= s.len() <= t.len(),
        forall|i: int| 0 <= i < s.len() ==> s[i] == t[i],
    ensures
        letters_value(s, n) == letters_value(t, n),
    decreases n,
{
    if n > 0 {
        lemma_letters_prefix(s, t, (n - 1) as nat);
    }
}

proof fn lemma_first_digit(s: Seq<char>, i: int, p: int)
    requires
        0 <= i <= p < s.len(),
        forall|k: int| i <= k < p ==> !is_digit(#[trigger] s[k]),
        is_digit(s[p]),
    ensures
        first_digit(s, i) == p,
    decreases p - i,
{
    if i < p {
        lemma_first_digit(s, i + 1, p);
    }
}

/// The reference made of a column's letters and a row's number names that row and
/// column.
pub proof fn reference_reads_back(row: usize, col: usize)
    requires
        row < usize::MAX,
        col < usize::MAX,
    ensures
        cell_ref(letters_of(col + 1) + decimal((row + 1) as nat)) == Some((row as int, col as int)),
{
    let l = letters_of(col + 1);
    let d = decimal((row + 1) as nat);
    let s = l + d;
    lemma_letters_back(col + 1);
    lemma_decimal_digits((row + 1) as nat);
    assert(s[0] == l[0]);
    assert(s[s.len() - 1] == d[d.len() - 1]);
    assert(is_digit(d[d.len() - 1]));
    assert(trim(s) =~= s);
    assert(s[l.len() as int] == d[0]);
    assert(is_digit(d[0]));
    assert forall|k: int| 0 <= k < l.len() implies !is_digit(#[trigger] s[k]) by {
        assert(s[k] == l[k]);
    }
    lemma_first_digit(s, 0, l.len() as int);
    assert(s.subrange(0, l.len() as int) =~= l);
    assert(s.subrange(l.len() as int, s.len() as int) =~= d);
}

// ── cells ───────────────────────────────────────────────────────────────────

/// Rows, with empty ones added so that there are at least `n`.
pub open spec fn grown_rows(rows: RowsView, n: int) -> RowsView {
    if rows.len() < n {
        Seq::new(
            n as nat,
            |i: int|
                if i < rows.len() {
                    rows[i]
                } else {
                    Seq::empty()
                },
        )
    } else {
        rows
    }
}

/// A row, with nulls added so that it has at least `n` cells.
pub open spec fn grown_row(row: Seq<Json>, n: int) -> Seq<Json> {
    if row.len() < n {
        Seq::new(n as nat, |i: int| cell_at(row, i))
    } else {
        row
    }
}

/// Rows with one cell set; the grid grows where it must.
pub open spec fn with_cell(rows: RowsView, r: int, c: int, v: Json) -> RowsView {
    let g = grown_rows(rows, r + 1);
    g.update(r, grown_row(g[r], c + 1).update(c, v))
}

fn grow_rows(rows: &mut Rows, n: usize)
    ensures
        final(rows).deep_view() == grown_rows(old(rows).deep_view(), n as int),
        final(rows)@.len() >= n,
{
    let ghost before = rows.deep_view();
    while rows.len() < n
        invariant
            before.len() <= rows@.len(),
            rows@.len() <= n || rows@.len() == before.len(),
            forall|i: int|
                0 <= i < rows@.len() ==> #[trigger] rows.deep_view()[i] == (if i < before.len() {
                    before[i]
                } else {
                    Seq::empty()
                }),
        decreases n - rows@.len(),
    {
        let none: Vec<Value> = Vec::new();
        assert(none.deep_view() =~= Seq::<Json>::empty());
        let ghost prev = rows.deep_view();
        push_deep(rows, none);
        assert forall|i: int| 0 <= i < rows@.len() implies #[trigger] rows.deep_view()[i] == (if i
            < before.len() {
            before[i]
        } else {
            Seq::empty()
        }) by {
            if i < prev.len() {
                assert(rows.deep_view()[i] == prev[i]);
            }
        }
    }
    assert(rows.deep_view() =~= grown_rows(before, n as int));
}

fn grow_row(row: &mut Vec<Value>, n: usize)
    ensures
        final(row).deep_view() == grown_row(old(row).deep_view(), n as int),
        final(row)@.len() >= n,
{
    let ghost before = row.deep_view();
    while row.len() < n
        invariant
            before.len() <= row@.len(),
            row@.len() <= n || row@.len() == before.len(),
            forall|i: int|
                0 <= i < row@.len() ==> #[trigger] row.deep_view()[i] == cell_at(before, i),
        decreases n - row@.len(),
    {
        let ghost prev = row.deep_view();
        push_deep(row, Value::Null);
        assert forall|i: int| 0 <= i < row@.len() implies #[trigger] row.deep_view()[i] == cell_at(
            before,
            i,
        ) by {
            if i < prev.len() {
                assert(row.deep_view()[i] == prev[i]);
            }
        }
    }
    assert(row.deep_view() =~= grown_row(before, n as int));
}

/// Sets an item of a vector.
pub fn set_deep<T: DeepView>(v: &mut Vec<T>, i: usize, x: T)
    requires
        i < old(v)@.len(),
    ensures
        final(v).deep_view() == old(v).deep_view().update(i as int, x.deep_view()),
        final(v)@.len() == old(v)@.len(),
{
    let ghost before = v.deep_view();
    v.set(i, x);
    assert forall|k: int| 0 <= k < v@.len() implies v.deep_view()[k] == before.update(
        i as int,
        x.deep_view(),
    )[k] by {
        if k != i {
            assert(v@[k] == old(v)@[k]);
        }
    }
    assert(v.deep_view() =~= before.update(i as int, x.deep_view()));
}

/// Sets one cell.
pub fn set_cell(rows: &mut Rows, r: usize, c: usize, v: Value)
    requires
        r < usize::MAX,
        c < usize::MAX,
    ensures
        final(rows).deep_view() == with_cell(
            old(rows).deep_view(),
            r as int,
            c as int,
            v.deep_view(),
        ),
{
    grow_rows(rows, r + 1);
    let ghost g = rows.deep_view();
    assert(g[r as int] == rows@[r as int].deep_view());
    let mut row = copy_values(&rows[r]);
    grow_row(&mut row, c + 1);
    set_deep(&mut row, c, v);
    set_deep(rows, r, row);
}

/// A cell that was set reads back, and every other cell reads as before.
pub proof fn set_cell_reads_back(rows: RowsView, r: int, c: int, v: Json, r2: int, c2: int)
    requires
        0 <= r,
        0 <= c,
        0 <= r2,
        0 <= c2,
    ensures
        read_cell(with_cell(rows, r, c, v), r, c) == v,
        (r2, c2) != (r, c) ==> read_cell(with_cell(rows, r, c, v), r2, c2) == read_cell(
            rows,
            r2,
            c2,
        ),
{
}

/// The cell at a row and column; null outside the rows.
pub open spec fn read_cell(rows: RowsView, r: int, c: int) -> Json {
    if 0 <= r < rows.len() {
        cell_at(rows[r], c)
    } else {
        Json::Null
    }
}

/// The cell at a row and column.
pub fn get_cell(rows: &Rows, r: usize, c: usize) -> (v: Value)
    ensures
        v.deep_view() == read_cell(rows.deep_view(), r as int, c as int),
{
    if r < rows.len() {
        assert(rows.deep_view()[r as int] == rows@[r as int].deep_view());
        copy_cell(&rows[r], c)
    } else {
        Value::Null
    }
}

// ── ranges ──────────────────────────────────────────────────────────────────

/// The cells of rows `r0` to `r1` and columns `c0` to `c1`, both ends included.
pub open spec fn range_cells(rows: RowsView, r0: int, c0: int, r1: int, c1: int) -> RowsView {
    Seq::new(
        (r1 - r0 + 1) as nat,
        |i: int| Seq::new((c1 - c0 + 1) as nat, |j: int| read_cell(rows, r0 + i, c0 + j)),
    )
}

pub fn get_range(rows: &Rows, r0: usize, c0: usize, r1: usize, c1: usize) -> (r: Rows)
    requires
        r0 <= r1 < usize::MAX,
        c0 <= c1 < usize::MAX,
    ensures
        r.deep_view() == range_cells(
            rows.deep_view(),
            r0 as int,
            c0 as int,
            r1 as int,
            c1 as int,
        ),
{
    let ghost all = range_cells(rows.deep_view(), r0 as int, c0 as int, r1 as int, c1 as int);
    let mut out: Rows = Vec::new();
    let mut r: usize = r0;
    while r <= r1
        invariant
            r0 <= r <= r1 + 1,
            r1 < usize::MAX,
            c0 <= c1 < usize::MAX,
            all == range_cells(rows.deep_view(), r0 as int, c0 as int, r1 as int, c1 as int),
            out.deep_view() == all.take(r - r0),
        decreases r1 + 1 - r,
    {
        let mut row: Vec<Value> = Vec::new();
        let mut c: usize = c0;
        let ghost want = all[r - r0];
        while c <= c1
            invariant
                r0 <= r <= r1,
                c0 <= c <= c1 + 1,
                c1 < usize::MAX,
                want == Seq::new(
                    (c1 - c0 + 1) as nat,
                    |j: int| read_cell(rows.deep_view(), r as int, c0 + j),
                ),
                row.deep_view() == want.take(c - c0),
            decreases c1 + 1 - c,
        {
            push_deep(&mut row, get_cell(rows, r, c));
            c = c + 1;
            assert(row.deep_view() =~= want.take(c - c0));
        }
        assert(want.take(c - c0) =~= want);
        push_deep(&mut out, row);
        r = r + 1;
        assert(out.deep_view() =~= all.take(r - r0));
    }
    assert(all.take(r - r0) =~= all);
    out
}

/// The two references of a range text, or the text that is none.
pub open spec fn range_ends(range: Seq<char>) -> Result<((int, int), (int, int)), Seq<char>> {
    let p = next_char(range, ':', 0);
    if 0 <= p < range.len() {
        let l = range.subrange(0, p);
        let r = range.subrange(p + 1, range.len() as int);
        match cell_ref(l) {
            None => Err("bad A1 reference: "@ + l),
            Some(a) => match cell_ref(r) {
                None => Err("bad A1 reference: "@ + r),
                Some(b) => Ok((a, b)),
            },
        }
    } else {
        match cell_ref(range) {
            None => Err("bad A1 reference: "@ + range),
            Some(a) => Ok((a, a)),
        }
    }
}

/// A reference, or the complaint about it.
pub fn need_a1(s: &str) -> (r: Result<(usize, usize), String>)
    ensures
        match r {
            Ok(p) => cell_ref(s@) == Some((p.0 as int, p.1 as int)) && p.0 < usize::MAX && p.1
                < usize::MAX,
            Err(e) => cell_ref(s@) is None && e@ == "bad A1 reference: "@ + s@,
        },
{
    match parse_a1(s) {
        Some(p) => Ok(p),
        None => Err(concat2("bad A1 reference: ", s)),
    }
}

/// First row, first column, last row and last column of a range text.
pub fn parse_range(range: &str) -> (r: Result<(usize, usize, usize, usize), String>)
    ensures
        match r {
            Ok(q) => range_ends(range@) matches Ok(e) && q.0 <= q.2 < usize::MAX && q.1 <= q.3
                < usize::MAX && q.0 == min2(e.0.0, e.1.0) && q.2 == max2(e.0.0, e.1.0) && q.1
                == min2(e.0.1, e.1.1) && q.3 == max2(e.0.1, e.1.1),
            Err(m) => range_ends(range@) == Err::<((int, int), (int, int)), Seq<char>>(m@),
        },
{
    let cs = chars_of(range);
    let p = find_char(&cs, ':', 0);
    let (a, b) = if p < cs.len() {
        let l = slice_text(&cs, 0, p);
        let r = slice_text(&cs, p + 1, cs.len());
        match need_a1(l.as_str()) {
            Err(e) => {
                return Err(e);
            },
            Ok(a) => match need_a1(r.as_str()) {
                Err(e) => {
                    return Err(e);
                },
                Ok(b) => (a, b),
            },
        }
    } else {
        match need_a1(range) {
            Err(e) => {
                return Err(e);
            },
            Ok(a) => (a, a),
        }
    };
    let r0: usize = if a.0 < b.0 {
        a.0
    } else {
        b.0
    };
    let r1: usize = if a.0 < b.0 {
        b.0
    } else {
        a.0
    };
    let c0: usize = if a.1 < b.1 {
        a.1
    } else {
        b.1
    };
    let c1: usize = if a.1 < b.1 {
        b.1
    } else {
        a.1
    };
    Ok((r0, c0, r1, c1))
}

pub open spec fn min2(a: int, b: int) -> int {
    if a < b {
        a
    } else {
        b
    }
}

pub open spec fn max2(a: int, b: int) -> int {
    if a < b {
        b
    } else {
        a
    }
}

/// Rows with the first `n` cells written into row `r` from column `c` on.
pub open spec fn with_cells(rows: RowsView, r: int, c: int, cells: Seq<Json>, n: nat) -> RowsView
    decreases n,
{
    if n == 0 || n > cells.len() {
        grown_rows(rows, r + 1)
    } else {
        with_cell(with_cells(rows, r, c, cells, (n - 1) as nat), r, c + n - 1, cells[n - 1])
    }
}

/// Rows with the first `n` rows of values written from row `r` and column `c` on; a
/// row of values that is no array is passed over.
pub open spec fn with_block(rows: RowsView, r: int, c: int, values: Seq<Json>, n: nat) -> RowsView
    decreases n,
{
    if n == 0 || n > values.len() {
        rows
    } else {
        let before = with_block(rows, r, c, values, (n - 1) as nat);
        match as_array(Some(values[n - 1])) {
            Some(cells) => with_cells(before, r + n - 1, c, cells, cells.len()),
            None => before,
        }
    }
}

/// The number of cells in the first `n` rows of values.
pub open spec fn block_size(values: Seq<Json>, n: nat) -> nat
    decreases n,
{
    if n == 0 || n > values.len() {
        0
    } else {
        block_size(values, (n - 1) as nat) + match as_array(Some(values[n - 1])) {
            Some(cells) => cells.len(),
            None => 0,
        }
    }
}

/// Writes a block of values from row `r` and column `c` on.
pub fn set_block(rows: &mut Rows, r: usize, c: usize, values: &Vec<Value>) -> (written: u64)
    requires
        r + values@.len() <= usize::MAX,
        forall|i: int|
            0 <= i < values@.len() ==> match as_array(
                Some(#[trigger] values.deep_view()[i]),
            ) {
                Some(cells) => c + cells.len() <= usize::MAX,
                None => true,
            },
    ensures
        final(rows).deep_view() == with_block(
            old(rows).deep_view(),
            r as int,
            c as int,
            values.deep_view(),
            values@.len(),
        ),
        written == crate::deck::in_64_bits(block_size(values.deep_view(), values@.len())),
{
    let ghost before = rows.deep_view();
    let ghost vv = values.deep_view();
    let mut written: u64 = 0;
    let mut i: usize = 0;
    while i < values.len()
        invariant
            i <= values@.len(),
            r + values@.len() <= usize::MAX,
            vv == values.deep_view(),
            forall|i: int|
                0 <= i < values@.len() ==> match as_array(Some(#[trigger] vv[i])) {
                    Some(cells) => c + cells.len() <= usize::MAX,
                    None => true,
                },
            rows.deep_view() == with_block(before, r as int, c as int, vv, i as nat),
            written == crate::deck::in_64_bits(block_size(vv, i as nat)),
        decreases values@.len() - i,
    {
        assert(vv[i as int] == values@[i as int].deep_view());
        match values[i].as_array() {
            Some(cells) => {
                let rr: usize = r + i;
                let ghost base = rows.deep_view();
                grow_rows(rows, rr + 1);
                let mut j: usize = 0;
                while j < cells.len()
                    invariant
                        j <= cells@.len(),
                        rr < usize::MAX,
                        c + cells@.len() <= usize::MAX,
                        rows.deep_view() == with_cells(
                            base,
                            rr as int,
                            c as int,
                            cells.deep_view(),
                            j as nat,
                        ),
                        written == crate::deck::in_64_bits(block_size(vv, i as nat) + j as nat),
                    decreases cells@.len() - j,
                {
                    assert(cells.deep_view()[j as int] == cells@[j as int].deep_view());
                    set_cell(rows, rr, c + j, cells[j].dup());
                    written = crate::deck::add_count(
                        written,
                        1,
                        Ghost(block_size(vv, i as nat) + j as nat),
                        Ghost(1),
                    );
                    j = j + 1;
                }
            },
            None => {},
        }
        i = i + 1;
    }
    written
}

// ── rows and columns in and out ─────────────────────────────────────────────

/// Rows with `count` empty rows put in before row `at`.
pub open spec fn with_blank_rows(rows: RowsView, at: int, count: nat) -> RowsView {
    let p = if at < rows.len() {
        at
    } else {
        rows.len() as int
    };
    rows.subrange(0, p) + Seq::new(count, |i: int| Seq::<Json>::empty()) + rows.subrange(
        p,
        rows.len() as int,
    )
}

fn push_rows(out: &mut Rows, rows: &Rows, from: usize, to: usize)
    requires
        from <= to <= rows@.len(),
    ensures
        final(out).deep_view() == old(out).deep_view() + rows.deep_view().subrange(
            from as int,
            to as int,
        ),
{
    let ghost before = out.deep_view();
    let mut i: usize = from;
    assert(out.deep_view() =~= before + rows.deep_view().subrange(from as int, i as int));
    while i < to
        invariant
            from <= i <= to <= rows@.len(),
            out.deep_view() == before + rows.deep_view().subrange(from as int, i as int),
        decreases to - i,
    {
        assert(rows.deep_view()[i as int] == rows@[i as int].deep_view());
        push_deep(out, copy_values(&rows[i]));
        i = i + 1;
        assert(out.deep_view() =~= before + rows.deep_view().subrange(from as int, i as int));
    }
}

/// The rows `from` to `to`.
pub fn rows_between(rows: &Rows, from: usize, to: usize) -> (r: Rows)
    requires
        from <= to <= rows@.len(),
    ensures
        r.deep_view() == rows.deep_view().subrange(from as int, to as int),
{
    let mut out: Rows = Vec::new();
    push_rows(&mut out, rows, from, to);
    assert(out.deep_view() =~= rows.deep_view().subrange(from as int, to as int));
    out
}

pub fn insert_rows(rows: &Rows, at: usize, count: usize) -> (r: Rows)
    ensures
        r.deep_view() == with_blank_rows(rows.deep_view(), at as int, count as nat),
{
    let p: usize = if at < rows.len() {
        at
    } else {
        rows.len()
    };
    let mut out = rows_between(rows, 0, p);
    let ghost head = out.deep_view();
    let mut i: usize = 0;
    assert(out.deep_view() =~= head + Seq::new(0nat, |i: int| Seq::<Json>::empty()));
    while i < count
        invariant
            i <= count,
            out.deep_view() == head + Seq::new(i as nat, |i: int| Seq::<Json>::empty()),
        decreases count - i,
    {
        let none: Vec<Value> = Vec::new();
        assert(none.deep_view() =~= Seq::<Json>::empty());
        push_deep(&mut out, none);
        i = i + 1;
        assert(out.deep_view() =~= head + Seq::new(i as nat, |i: int| Seq::<Json>::empty()));
    }
    push_rows(&mut out, rows, p, rows.len());
    out
}

/// Rows without the `count` rows from row `at` on.
pub open spec fn without_rows(rows: RowsView, at: int, count: int) -> RowsView {
    if at < rows.len() {
        rows.subrange(0, at) + rows.subrange(min2(at + count, rows.len() as int), rows.len() as int)
    } else {
        rows
    }
}

/// Takes rows out; says how many.
pub fn delete_rows(rows: &Rows, at: usize, count: usize) -> (r: (Rows, usize))
    ensures
        r.0.deep_view() == without_rows(rows.deep_view(), at as int, count as int),
        r.1 == rows@.len() - r.0@.len(),
{
    if at >= rows.len() {
        return (copy_rows(rows), 0);
    }
    let end: usize = if count < rows.len() - at {
        at + count
    } else {
        rows.len()
    };
    let mut out = rows_between(rows, 0, at);
    push_rows(&mut out, rows, end, rows.len());
    assert(out@.len() == out.deep_view().len());
    (out, end - at)
}

/// Taking out the rows that were put in leaves the rows as they were.
pub proof fn delete_undoes_insert(rows: RowsView, at: int, count: nat)
    requires
        0 <= at <= rows.len(),
    ensures
        without_rows(with_blank_rows(rows, at, count), at, count as int) == rows,
{
    let w = with_blank_rows(rows, at, count);
    assert(without_rows(w, at, count as int) =~= rows);
}

/// A row with a cell put in before column `at`, or at its end.
pub open spec fn with_cell_inserted(row: Seq<Json>, at: int, v: Json) -> Seq<Json> {
    let p = if at < row.len() {
        at
    } else {
        row.len() as int
    };
    row.subrange(0, p).push(v) + row.subrange(p, row.len() as int)
}

/// Rows with a column put in: its name in the header row, its value elsewhere.
pub open spec fn with_column(rows: RowsView, at: int, header: bool, name: Seq<char>, fill: Json) -> RowsView {
    Seq::new(
        rows.len(),
        |i: int|
            with_cell_inserted(
                rows[i],
                at,
                if header && i == 0 {
                    Json::Text(name)
                } else {
                    fill
                },
            ),
    )
}

fn insert_cell(row: &Vec<Value>, at: usize, v: Value) -> (r: Vec<Value>)
    ensures
        r.deep_view() == with_cell_inserted(row.deep_view(), at as int, v.deep_view()),
{
    let p: usize = if at < row.len() {
        at
    } else {
        row.len()
    };
    let ghost rv = row.deep_view();
    let mut out: Vec<Value> = Vec::new();
    let mut i: usize = 0;
    while i < p
        invariant
            i <= p <= row@.len(),
            rv == row.deep_view(),
            out.deep_view() == rv.subrange(0, i as int),
        decreases p - i,
    {
        push_deep(&mut out, row[i].dup());
        i = i + 1;
        assert(out.deep_view() =~= rv.subrange(0, i as int));
    }
    let ghost head = rv.subrange(0, p as int).push(v.deep_view());
    push_deep(&mut out, v);
    assert(out.deep_view() =~= head + rv.subrange(p as int, p as int));
    while i < row.len()
        invariant
            p <= i <= row@.len(),
            rv == row.deep_view(),
            out.deep_view() == head + rv.subrange(p as int, i as int),
        decreases row@.len() - i,
    {
        push_deep(&mut out, row[i].dup());
        i = i + 1;
        assert(out.deep_view() =~= head + rv.subrange(p as int, i as int));
    }
    out
}

pub fn insert_column(rows: &Rows, at: usize, header: bool, name: &str, fill: &Value) -> (r: Rows)
    ensures
        r.deep_view() == with_column(
            rows.deep_view(),
            at as int,
            header,
            name@,
            fill.deep_view(),
        ),
{
    let ghost all = with_column(rows.deep_view(), at as int, header, name@, fill.deep_view());
    let mut out: Rows = Vec::new();
    let mut i: usize = 0;
    while i < rows.len()
        invariant
            i <= rows@.len(),
            all == with_column(rows.deep_view(), at as int, header, name@, fill.deep_view()),
            out.deep_view() == all.take(i as int),
        decreases rows@.len() - i,
    {
        assert(rows.deep_view()[i as int] == rows@[i as int].deep_view());
        let v = if header && i == 0 {
            crate::value::text_value(name)
        } else {
            fill.dup()
        };
        push_deep(&mut out, insert_cell(&rows[i], at, v));
        i = i + 1;
        assert(out.deep_view() =~= all.take(i as int));
    }
    assert(all.take(i as int) =~= all);
    out
}

// ── what edits do to a grid ─────────────────────────────────────────────────

/// What a grid holds at a row and a column; null outside it.
pub open spec fn held(rows: RowsView, r: int, c: int) -> Json {
    if 0 <= r < rows.len() && 0 <= c < rows[r].len() {
        rows[r][c]
    } else {
        Json::Null
    }
}

/// A sheet is the first with the name that is given, or the one with the number, counted from
/// zero; without either it is the first. A name or a number that there is none of gives none.
pub proof fn sheets_are_chosen_by_name_or_number(sel: Option<Json>, sheets: Seq<SheetView>)
    ensures
        sel matches Some(Json::Text(name)) ==> match sheet_by(sel, sheets) {
            Some(t) => 0 <= t < sheets.len() && sheets[t].0 == name && forall|k: int|
                0 <= k < t ==> (#[trigger] sheets[k]).0 != name,
            None => forall|k: int| 0 <= k < sheets.len() ==> (#[trigger] sheets[k]).0 != name,
        },
        sel matches Some(Json::Number(Num::Unsigned(u))) ==> sheet_by(sel, sheets) == (if u
            < sheets.len() {
            Some(u as int)
        } else {
            None
        }),
        !(sel matches Some(Json::Text(_))) && !(sel matches Some(Json::Number(_))) ==> sheet_by(
            sel,
            sheets,
        ) == (if sheets.len() > 0 {
            Some(0int)
        } else {
            None
        }),
{
    if sel matches Some(Json::Text(_)) {
        lemma_sheet_pos(sheets, sel->0->Text_0, 0);
    }
}

proof fn lemma_sheet_pos(sheets: Seq<SheetView>, name: Seq<char>, i: int)
    requires
        0 <= i <= sheets.len(),
    ensures
        i <= sheet_pos(sheets, name, i) <= sheets.len(),
        forall|k: int| i <= k < sheet_pos(sheets, name, i) ==> (#[trigger] sheets[k]).0 != name,
        sheet_pos(sheets, name, i) < sheets.len() ==> sheets[sheet_pos(sheets, name, i)].0 == name,
    decreases sheets.len() - i,
{
    if i < sheets.len() && sheets[i].0 != name {
        lemma_sheet_pos(sheets, name, i + 1);
    }
}

/// Rows that are put in push those from their place on down, and are empty.
pub proof fn inserted_rows_push_down(rows: RowsView, at: int, count: nat, i: int)
    requires
        0 <= at,
        0 <= i,
    ensures
        ({
            let out = with_blank_rows(rows, at, count);
            let p: int = if at <= rows.len() {
                at
            } else {
                rows.len() as int
            };
            &&& out.len() == rows.len() + count
            &&& i < p ==> out[i] == rows[i]
            &&& p <= i < p + count ==> out[i].len() == 0
            &&& p <= i < rows.len() ==> out[i + count] == rows[i]
        }),
{
}

/// Rows that are taken out leave those above as they are and draw those below up.
pub proof fn deleted_rows_draw_up(rows: RowsView, at: int, count: int, i: int)
    requires
        0 <= at,
        0 <= count,
        0 <= i < rows.len(),
    ensures
        ({
            let out = without_rows(rows, at, count);
            &&& i < at ==> i < out.len() && out[i] == rows[i]
            &&& i >= at + count ==> i - count < out.len() && out[i - count] == rows[i]
            &&& at >= rows.len() ==> out == rows
            &&& at + count <= rows.len() ==> out.len() == rows.len() - count
            &&& at < rows.len() < at + count ==> out.len() == at
        }),
{
}

/// A column that is put in pushes the cells from its place on to the right, and holds its name
/// in the header and its value in each other row.
pub proof fn inserted_columns_push_right(
    rows: RowsView,
    at: int,
    header: bool,
    name: Seq<char>,
    fill: Json,
    i: int,
    c: int,
)
    requires
        0 <= at,
        0 <= i < rows.len(),
        0 <= c < rows[i].len(),
    ensures
        ({
            let out = with_column(rows, at, header, name, fill);
            let p: int = if at <= rows[i].len() {
                at
            } else {
                rows[i].len() as int
            };
            &&& out.len() == rows.len()
            &&& out[i].len() == rows[i].len() + 1
            &&& out[i][p] == if header && i == 0 {
                Json::Text(name)
            } else {
                fill
            }
            &&& c < p ==> out[i][c] == rows[i][c]
            &&& c >= p ==> out[i][c + 1] == rows[i][c]
        }),
{
}

/// A range has the cells of its rows and columns, both ends among them.
pub proof fn ranges_hold_their_cells(
    rows: RowsView,
    r0: int,
    c0: int,
    r1: int,
    c1: int,
    r: int,
    c: int,
)
    requires
        r0 <= r <= r1,
        c0 <= c <= c1,
    ensures
        range_cells(rows, r0, c0, r1, c1).len() == r1 - r0 + 1,
        range_cells(rows, r0, c0, r1, c1)[r - r0].len() == c1 - c0 + 1,
        range_cells(rows, r0, c0, r1, c1)[r - r0][c - c0] == held(rows, r, c),
{
}

proof fn lemma_read_held(rows: RowsView, r: int, c: int)
    ensures
        read_cell(rows, r, c) == held(rows, r, c),
{
}

proof fn lemma_cells(rows: RowsView, r: int, c: int, cells: Seq<Json>, n: nat, r2: int, c2: int)
    requires
        0 <= r,
        0 <= c,
        0 <= r2,
        0 <= c2,
        n <= cells.len(),
    ensures
        held(with_cells(rows, r, c, cells, n), r2, c2) == (if r2 == r && c <= c2 < c + n {
            cells[c2 - c]
        } else {
            held(rows, r2, c2)
        }),
    decreases n,
{
    if n > 0 {
        lemma_cells(rows, r, c, cells, (n - 1) as nat, r2, c2);
        let before = with_cells(rows, r, c, cells, (n - 1) as nat);
        set_cell_reads_back(before, r, c + n - 1, cells[n - 1], r2, c2);
        lemma_read_held(with_cells(rows, r, c, cells, n), r2, c2);
        lemma_read_held(before, r2, c2);
    }
}

proof fn lemma_block(rows: RowsView, r: int, c: int, values: Seq<Json>, n: nat, r2: int, c2: int)
    requires
        0 <= r,
        0 <= c,
        0 <= r2,
        0 <= c2,
        n <= values.len(),
    ensures
        held(with_block(rows, r, c, values, n), r2, c2) == (if r <= r2 < r + n && c <= c2 && (
        values[r2 - r] matches Json::Array(cells) && c2 < c + cells.len()) {
            values[r2 - r]->Array_0[c2 - c]
        } else {
            held(rows, r2, c2)
        }),
    decreases n,
{
    if n > 0 {
        lemma_block(rows, r, c, values, (n - 1) as nat, r2, c2);
        let before = with_block(rows, r, c, values, (n - 1) as nat);
        match values[n - 1] {
            Json::Array(cells) => {
                lemma_cells(before, r + n - 1, c, cells, cells.len(), r2, c2);
            },
            _ => {},
        }
    }
}

/// A block that was written holds its values from its corner on, and each other cell is as it
/// was; a row of values that is no list changes nothing.
pub proof fn blocks_hold_their_values(
    rows: RowsView,
    r: int,
    c: int,
    values: Seq<Json>,
    r2: int,
    c2: int,
)
    requires
        0 <= r,
        0 <= c,
        0 <= r2,
        0 <= c2,
    ensures
        held(with_block(rows, r, c, values, values.len()), r2, c2) == (if r <= r2 < r
            + values.len() && c <= c2 && (values[r2 - r] matches Json::Array(cells) && c2 < c
            + cells.len()) {
            values[r2 - r]->Array_0[c2 - c]
        } else {
            held(rows, r2, c2)
        }),
{
    lemma_block(rows, r, c, values, values.len(), r2, c2);
}

} // verus!
