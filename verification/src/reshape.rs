//! Sheets in another shape: columns split, joined, chosen and added, wide sheets made
//! long, two sheets joined, rows and columns exchanged, texts replaced.

use crate::columns::{
    column_label, label_of_column, pieces_from, resolve_col, resolved_col, result_at, split_by,
};
use crate::deck::{add_count, in_64_bits};
use crate::deep::{append_deep, push_deep, tabulate};
use crate::grid::{cell_at, copy_cell, data_start, first_data_row, Rows, RowsView};
use crate::groups::is_filled;
use crate::ordering::{
    below_header, goes_down, held_in, lemma_trimmed_away, num_at, number_at, number_of, nums_view,
    occurs_in, shown_in, Nums,
};
use crate::records::{checked_name, name_of_checked, record_row};
use crate::render::lemma_join_front;
use crate::tables::{count_columns, widest};
use crate::text::{
    ascii_lower, chars_of, concat2, copy_text, decimal, find_from, find_text, is_space, join,
    join_texts, lower, push_chars, push_decimal, same, slice_text, texts_are_found_first, trim,
    trim_text,
};
use crate::value::{cell_text, cell_to_string, copy_values, field, text_value, Json, Value};
use vstd::prelude::*;

verus! {

// ── lists of columns ────────────────────────────────────────────────────────

/// The columns that the first `n` selectors name, or the first complaint.
pub open spec fn columns_among(a: Seq<Json>, header: bool, rows: RowsView, n: nat) -> Result<
    Seq<usize>,
    Seq<char>,
>
    decreases n,
{
    if n == 0 || n > a.len() {
        Ok(Seq::empty())
    } else {
        match columns_among(a, header, rows, (n - 1) as nat) {
            Err(e) => Err(e),
            Ok(before) => match resolved_col(
                Some(a[n - 1]),
                header,
                rows,
                "column must be a name or 0-based index"@,
            ) {
                Err(e) => Err(e),
                Ok(c) => Ok(before.push(c)),
            },
        }
    }
}

pub open spec fn res_cols(r: Result<Vec<usize>, String>) -> Result<Seq<usize>, Seq<char>> {
    match r {
        Ok(c) => Ok(c@),
        Err(e) => Err(e@),
    }
}

proof fn lemma_first_complaint(a: Seq<Json>, header: bool, rows: RowsView, i: nat, n: nat)
    requires
        i <= n <= a.len(),
        columns_among(a, header, rows, i) is Err,
    ensures
        columns_among(a, header, rows, n) == columns_among(a, header, rows, i),
    decreases n,
{
    if i < n {
        lemma_first_complaint(a, header, rows, i, (n - 1) as nat);
    }
}

/// The columns that selectors name.
pub fn resolve_cols(a: &Vec<Value>, header: bool, rows: &Rows) -> (r: Result<Vec<usize>, String>)
    ensures
        res_cols(r) == columns_among(a.deep_view(), header, rows.deep_view(), a@.len()),
{
    let mut out: Vec<usize> = Vec::new();
    let mut i: usize = 0;
    assert(a.deep_view().len() == a@.len());
    while i < a.len()
        invariant
            i <= a@.len(),
            a.deep_view().len() == a@.len(),
            columns_among(a.deep_view(), header, rows.deep_view(), i as nat) == Ok::<
                Seq<usize>,
                Seq<char>,
            >(out@),
        decreases a@.len() - i,
    {
        assert(a.deep_view()[i as int] == a@[i as int].deep_view());
        match resolve_col(Some(&a[i]), header, rows) {
            Ok(c) => {
                out.push(c);
            },
            Err(e) => {
                proof {
                    lemma_first_complaint(
                        a.deep_view(),
                        header,
                        rows.deep_view(),
                        (i + 1) as nat,
                        a@.len(),
                    );
                }
                return Err(e);
            },
        }
        i = i + 1;
    }
    Ok(out)
}

/// The columns of one selector or of a list of them; none where there is none.
pub open spec fn listed_columns(v: Option<Json>, header: bool, rows: RowsView) -> Result<
    Seq<usize>,
    Seq<char>,
> {
    match v {
        Some(Json::Array(a)) => columns_among(a, header, rows, a.len()),
        Some(Json::Null) => Ok(Seq::empty()),
        Some(x) => match resolved_col(
            Some(x),
            header,
            rows,
            "column must be a name or 0-based index"@,
        ) {
            Ok(c) => Ok(seq![c]),
            Err(e) => Err(e),
        },
        None => Ok(Seq::empty()),
    }
}

pub fn resolve_list(v: Option<&Value>, header: bool, rows: &Rows) -> (r: Result<
    Vec<usize>,
    String,
>)
    ensures
        res_cols(r) == listed_columns(crate::value::opt_json(v), header, rows.deep_view()),
{
    match v {
        None => Ok(Vec::new()),
        Some(x) => match x {
            Value::Array(a) => {
                proof {
                    crate::value::lemma_array_view(a);
                    assert(a.deep_view().len() == a@.len());
                }
                resolve_cols(a, header, rows)
            },
            Value::Null => Ok(Vec::new()),
            _ => match resolve_col(Some(x), header, rows) {
                Ok(c) => {
                    let mut one: Vec<usize> = Vec::new();
                    one.push(c);
                    assert(one@ =~= seq![c]);
                    Ok(one)
                },
                Err(e) => Err(e),
            },
        },
    }
}

/// Whether a column is listed.
pub fn is_listed(cols: &Vec<usize>, c: usize) -> (r: bool)
    ensures
        r == cols@.contains(c),
{
    let mut i: usize = 0;
    while i < cols.len()
        invariant
            i <= cols@.len(),
            forall|k: int| 0 <= k < i ==> cols@[k] != c,
        decreases cols@.len() - i,
    {
        if cols[i] == c {
            assert(cols@[i as int] == c);
            return true;
        }
        i = i + 1;
    }
    false
}

// ── one column split into several ───────────────────────────────────────────

/// The pieces of `s` from `i` on, at most `m` of them: the last holds what is left.
pub open spec fn limited_pieces(s: Seq<char>, sep: Seq<char>, i: int, m: nat) -> Seq<Seq<char>>
    decreases m,
{
    if m <= 1 {
        seq![s.subrange(i, s.len() as int)]
    } else {
        match find_from(s, sep, i) {
            Some(p) => seq![s.subrange(i, p)] + limited_pieces(
                s,
                sep,
                p + sep.len(),
                (m - 1) as nat,
            ),
            None => seq![s.subrange(i, s.len() as int)],
        }
    }
}

/// The parts of a cell text: its pieces, at most `max` where that is not zero.
pub open spec fn cell_pieces(s: Seq<char>, sep: Seq<char>, max: Option<u64>) -> Seq<Seq<char>> {
    match max {
        Some(m) => if m >= 1 {
            limited_pieces(s, sep, 0, m as nat)
        } else {
            pieces_from(s, sep, 0)
        },
        None => pieces_from(s, sep, 0),
    }
}

/// The parts of a cell text, trimmed or as they are.
pub open spec fn cell_parts(
    s: Seq<char>,
    sep: Seq<char>,
    max: Option<u64>,
    trimmed: bool,
) -> Seq<Seq<char>> {
    let ps = cell_pieces(s, sep, max);
    Seq::new(
        ps.len(),
        |i: int|
            if trimmed {
                trim(ps[i])
            } else {
                ps[i]
            },
    )
}

fn split_upto(s: &str, sep: &str, m: u64) -> (r: Vec<String>)
    requires
        sep@.len() > 0,
        m >= 1,
    ensures
        r.deep_view() == limited_pieces(s@, sep@, 0, m as nat),
{
    let cs = chars_of(s);
    let ps = chars_of(sep);
    let total: usize = cs.len();
    let mut out: Vec<String> = Vec::new();
    let mut i: usize = 0;
    let mut left: u64 = m;
    let ghost all = limited_pieces(s@, sep@, 0, m as nat);
    assert(out.deep_view() + limited_pieces(s@, sep@, 0, m as nat) =~= all);
    loop
        invariant_except_break
            i <= cs@.len(),
            total == cs@.len(),
            cs@ == s@,
            ps@ == sep@,
            left >= 1,
            out.deep_view() + limited_pieces(s@, sep@, i as int, left as nat) == all,
        ensures
            out.deep_view() == all,
        decreases left,
    {
        let ghost before = out.deep_view();
        let found = if left <= 1 {
            None
        } else {
            find_text(&cs, &ps, i)
        };
        match found {
            Some(p) => {
                assert(p + ps@.len() <= total);
                push_deep(&mut out, slice_text(&cs, i, p));
                left = left - 1;
                assert(out.deep_view() + limited_pieces(s@, sep@, p + sep@.len(), left as nat)
                    =~= before + (seq![s@.subrange(i as int, p as int)] + limited_pieces(
                    s@,
                    sep@,
                    p + sep@.len(),
                    left as nat,
                )));
                i = p + ps.len();
            },
            None => {
                push_deep(&mut out, slice_text(&cs, i, cs.len()));
                assert(out.deep_view() =~= before + seq![s@.subrange(i as int, s@.len() as int)]);
                break;
            },
        }
    }
    out
}

fn split_cell(s: &str, sep: &str, max: Option<u64>, trimmed: bool) -> (r: Vec<String>)
    requires
        sep@.len() > 0,
    ensures
        r.deep_view() == cell_parts(s@, sep@, max, trimmed),
        r@.len() == cell_parts(s@, sep@, max, trimmed).len(),
{
    let ps = match max {
        Some(m) => if m >= 1 {
            split_upto(s, sep, m)
        } else {
            split_by(s, sep)
        },
        None => split_by(s, sep),
    };
    let ghost pv = ps.deep_view();
    let n: usize = ps.len();
    let part = |i: usize| -> (t: String)
        requires
            i < ps@.len(),
        ensures
            t@ == (if trimmed {
                trim(ps@[i as int]@)
            } else {
                ps@[i as int]@
            }),
        {
            if trimmed {
                trim_text(ps[i].as_str())
            } else {
                ps[i].clone()
            }
        };
    let ghost g = |i: int|
        if trimmed {
            trim(pv[i])
        } else {
            pv[i]
        };
    assert forall|i: usize| i < n implies pv[i as int] == (#[trigger] ps@[i as int])@ by {}
    assert(pv.len() == n);
    let out = tabulate(n, &part, Ghost(g));
    assert(out.deep_view() =~= cell_parts(s@, sep@, max, trimmed));
    out
}

/// The most parts of a cell of column `c` in the rows from `start` up to `n`, at least
/// one.
pub open spec fn most_parts(
    rows: RowsView,
    start: int,
    c: int,
    sep: Seq<char>,
    max: Option<u64>,
    n: int,
) -> nat
    decreases n - start,
{
    if n <= start || n > rows.len() {
        1
    } else {
        let before = most_parts(rows, start, c, sep, max, n - 1);
        let here = cell_pieces(cell_text(cell_at(rows[n - 1], c)), sep, max).len();
        if here > before {
            here
        } else {
            before
        }
    }
}

/// How a column is split.
pub struct Splitting {
    pub sep: String,
    pub max: Option<u64>,
    pub trimmed: bool,
    pub keep: bool,
}

/// The names of the new columns: those given, or the name of the column with numbers
/// from 1, as many as the widest cell has parts.
pub open spec fn split_names(
    rows: RowsView,
    header: bool,
    c: int,
    s: Splitting,
    into: Option<Seq<Seq<char>>>,
) -> Seq<Seq<char>> {
    match into {
        Some(names) => names,
        None => Seq::new(
            most_parts(
                rows,
                data_start(header, rows),
                c,
                s.sep@,
                s.max,
                rows.len() as int,
            ),
            |i: int| column_label(header, rows, c) + "_"@ + decimal((i + 1) as nat),
        ),
    }
}

/// Item `i` of a list, an empty text behind its end.
pub open spec fn part_at(parts: Seq<Seq<char>>, i: int) -> Seq<char> {
    if i < parts.len() {
        parts[i]
    } else {
        Seq::empty()
    }
}

/// A row with cells in place of column `c`, or behind it where it is kept.
pub open spec fn with_parts(row: Seq<Json>, c: int, keep: bool, parts: Seq<Json>) -> Seq<Json> {
    let front = if c < row.len() {
        row.take(c)
    } else {
        row
    };
    let kept = if keep {
        seq![cell_at(row, c)]
    } else {
        Seq::empty()
    };
    let back = if c + 1 < row.len() {
        row.skip(c + 1)
    } else {
        Seq::empty()
    };
    front + kept + parts + back
}

/// Row `i` of the sheet with a column split.
pub open spec fn split_row(
    rows: RowsView,
    start: int,
    c: int,
    s: Splitting,
    names: Seq<Seq<char>>,
    i: int,
) -> Seq<Json> {
    let parts = cell_parts(cell_text(cell_at(rows[i], c)), s.sep@, s.max, s.trimmed);
    with_parts(
        rows[i],
        c,
        s.keep,
        Seq::new(
            names.len(),
            |k: int|
                Json::Text(
                    if i < start {
                        names[k]
                    } else {
                        part_at(parts, k)
                    },
                ),
        ),
    )
}

fn count_parts(rows: &Rows, start: usize, c: usize, sep: &str, max: Option<u64>) -> (r: usize)
    requires
        start <= rows@.len(),
        sep@.len() > 0,
    ensures
        r == most_parts(
            rows.deep_view(),
            start as int,
            c as int,
            sep@,
            max,
            rows@.len() as int,
        ),
{
    let ghost rv = rows.deep_view();
    let mut most: usize = 1;
    let mut i: usize = start;
    while i < rows.len()
        invariant
            start <= i <= rows@.len(),
            sep@.len() > 0,
            rv == rows.deep_view(),
            most == most_parts(rv, start as int, c as int, sep@, max, i as int),
        decreases rows@.len() - i,
    {
        assert(rv[i as int] == rows@[i as int].deep_view());
        let cell = copy_cell(&rows[i], c);
        let n: usize = split_cell(cell_to_string(&cell).as_str(), sep, max, false).len();
        if n > most {
            most = n;
        }
        i = i + 1;
    }
    most
}

fn put_parts(row: &Vec<Value>, c: usize, keep: bool, parts: Vec<Value>) -> (r: Vec<Value>)
    ensures
        r.deep_view() == with_parts(row.deep_view(), c as int, keep, parts.deep_view()),
{
    let ghost rv = row.deep_view();
    let ghost pv = parts.deep_view();
    let mut out: Vec<Value> = Vec::new();
    let front: usize = if c < row.len() {
        c
    } else {
        row.len()
    };
    let mut i: usize = 0;
    assert(rv.len() == row@.len());
    while i < front
        invariant
            i <= front <= row@.len(),
            rv == row.deep_view(),
            out.deep_view() == rv.take(i as int),
        decreases front - i,
    {
        assert(rv[i as int] == row@[i as int].deep_view());
        push_deep(&mut out, row[i].dup());
        i = i + 1;
        assert(out.deep_view() =~= rv.take(i as int));
    }
    assert(rv.take(front as int) =~= (if c < rv.len() {
        rv.take(c as int)
    } else {
        rv
    }));
    if keep {
        push_deep(&mut out, copy_cell(row, c));
    }
    let ghost before = out.deep_view();
    append_deep(&mut out, parts);
    let ghost joined = before + pv;
    let mut k: usize = if c < row.len() {
        c + 1
    } else {
        row.len()
    };
    let ghost from = k as int;
    assert(out.deep_view() =~= joined + rv.subrange(from, from));
    while k < row.len()
        invariant
            0 <= from <= k <= row@.len(),
            rv == row.deep_view(),
            rv.len() == row@.len(),
            out.deep_view() == joined + rv.subrange(from, k as int),
        decreases row@.len() - k,
    {
        assert(rv[k as int] == row@[k as int].deep_view());
        push_deep(&mut out, row[k].dup());
        k = k + 1;
        assert(out.deep_view() =~= joined + rv.subrange(from, k as int));
    }
    assert(out.deep_view() =~= with_parts(rv, c as int, keep, pv));
    out
}

fn make_split_row(
    rows: &Rows,
    start: usize,
    c: usize,
    s: &Splitting,
    names: &Vec<String>,
    i: usize,
) -> (r: Vec<Value>)
    requires
        i < rows@.len(),
        s.sep@.len() > 0,
    ensures
        r.deep_view() == split_row(
            rows.deep_view(),
            start as int,
            c as int,
            *s,
            names.deep_view(),
            i as int,
        ),
{
    assert(rows.deep_view()[i as int] == rows@[i as int].deep_view());
    let cell = copy_cell(&rows[i], c);
    let parts = split_cell(cell_to_string(&cell).as_str(), s.sep.as_str(), s.max, s.trimmed);
    let ghost pv = parts.deep_view();
    let ghost nv = names.deep_view();
    let part = |k: usize| -> (v: Value)
        requires
            k < names@.len(),
        ensures
            v.deep_view() == Json::Text(
                if i < start {
                    names@[k as int]@
                } else if k < parts@.len() {
                    parts@[k as int]@
                } else {
                    Seq::empty()
                },
            ),
        {
            if i < start {
                text_value(names[k].as_str())
            } else if k < parts.len() {
                text_value(parts[k].as_str())
            } else {
                Value::Text(String::new())
            }
        };
    let ghost g = |k: int|
        Json::Text(
            if i < start {
                nv[k]
            } else {
                part_at(pv, k)
            },
        );
    assert(nv.len() == names@.len());
    assert(pv.len() == parts@.len());
    assert forall|k: usize| k < names@.len() implies nv[k as int] == (#[trigger] names@[k as int])@ by {}
    assert forall|k: usize| k < parts@.len() implies pv[k as int] == (#[trigger] parts@[k as int])@ by {}
    let cells = tabulate(names.len(), &part, Ghost(g));
    assert(cells.deep_view() =~= Seq::new(
        nv.len(),
        |k: int|
            Json::Text(
                if (i as int) < (start as int) {
                    nv[k]
                } else {
                    part_at(pv, k)
                },
            ),
    ));
    put_parts(&rows[i], c, s.keep, cells)
}

/// The sheet with column `c` split by a separator, and the number of new columns.
pub open spec fn split_rows(
    rows: RowsView,
    header: bool,
    c: int,
    s: Splitting,
    into: Option<Seq<Seq<char>>>,
) -> RowsView {
    let names = split_names(rows, header, c, s, into);
    Seq::new(
        rows.len(),
        |i: int| split_row(rows, data_start(header, rows), c, s, names, i),
    )
}

pub open spec fn opt_texts(v: Option<&Vec<String>>) -> Option<Seq<Seq<char>>> {
    match v {
        Some(t) => Some(t.deep_view()),
        None => None,
    }
}

/// Splits a column into several.
pub fn op_sheet_split_column(
    rows: &Rows,
    header: bool,
    c: usize,
    s: &Splitting,
    into: Option<&Vec<String>>,
) -> (r: (Rows, usize))
    requires
        s.sep@.len() > 0,
    ensures
        r.0.deep_view() == split_rows(rows.deep_view(), header, c as int, *s, opt_texts(into)),
        r.1 == split_names(rows.deep_view(), header, c as int, *s, opt_texts(into)).len(),
{
    let start = first_data_row(header, rows);
    let ghost rv = rows.deep_view();
    assert(rv.len() == rows@.len());
    let names: Vec<String> = match into {
        Some(n) => copy_texts(n),
        None => {
            let base = label_of_column(header, rows, c);
            let count = count_parts(rows, start, c, s.sep.as_str(), s.max);
            let name = |i: usize| -> (t: String)
                requires
                    i < count,
                ensures
                    t@ == base@ + "_"@ + decimal((i + 1) as nat),
                {
                    let mut t = concat2(base.as_str(), "_");
                    push_decimal(&mut t, (i + 1) as u64);
                    t
                };
            let ghost g = |i: int| base@ + "_"@ + decimal((i + 1) as nat);
            let out = tabulate(count, &name, Ghost(g));
            assert(out.deep_view() =~= split_names(rv, header, c as int, *s, None));
            out
        },
    };
    let ghost nv = names.deep_view();
    assert(nv == split_names(rv, header, c as int, *s, opt_texts(into)));
    let make = |i: usize| -> (row: Vec<Value>)
        requires
            i < rows@.len(),
            s.sep@.len() > 0,
        ensures
            row.deep_view() == split_row(
                rows.deep_view(),
                start as int,
                c as int,
                *s,
                names.deep_view(),
                i as int,
            ),
        { make_split_row(rows, start, c, s, &names, i) };
    let ghost g = |i: int| split_row(rv, start as int, c as int, *s, nv, i);
    let out = tabulate(rows.len(), &make, Ghost(g));
    assert(out.deep_view() =~= split_rows(rv, header, c as int, *s, opt_texts(into)));
    let n: usize = names.len();
    assert(nv.len() == n);
    (out, n)
}

/// A copy of a list of texts.
pub fn copy_texts(v: &Vec<String>) -> (r: Vec<String>)
    ensures
        r.deep_view() == v.deep_view(),
{
    let mut out: Vec<String> = Vec::new();
    let mut i: usize = 0;
    while i < v.len()
        invariant
            i <= v@.len(),
            out.deep_view() == v.deep_view().take(i as int),
        decreases v@.len() - i,
    {
        assert(v.deep_view()[i as int] == v@[i as int]@);
        push_deep(&mut out, v[i].clone());
        i = i + 1;
        assert(out.deep_view() =~= v.deep_view().take(i as int));
    }
    assert(v.deep_view().take(i as int) =~= v.deep_view());
    out
}

// ── several columns joined into one ─────────────────────────────────────────

/// The texts of the first `n` listed columns of a row; blank ones are left out where
/// that is asked for.
pub open spec fn listed_texts(row: Seq<Json>, cols: Seq<usize>, skip_blanks: bool, n: nat) -> Seq<
    Seq<char>,
>
    decreases n,
{
    if n == 0 || n > cols.len() {
        Seq::empty()
    } else {
        let before = listed_texts(row, cols, skip_blanks, (n - 1) as nat);
        let t = cell_text(cell_at(row, cols[n - 1] as int));
        if skip_blanks && !is_filled(t) {
            before
        } else {
            before.push(t)
        }
    }
}

pub fn texts_of_listed(row: &Vec<Value>, cols: &Vec<usize>, skip_blanks: bool) -> (r: Vec<String>)
    ensures
        r.deep_view() == listed_texts(row.deep_view(), cols@, skip_blanks, cols@.len()),
{
    let mut out: Vec<String> = Vec::new();
    let mut i: usize = 0;
    assert(out.deep_view() =~= Seq::<Seq<char>>::empty());
    while i < cols.len()
        invariant
            i <= cols@.len(),
            out.deep_view() == listed_texts(row.deep_view(), cols@, skip_blanks, i as nat),
        decreases cols@.len() - i,
    {
        let t = cell_to_string(&copy_cell(row, cols[i]));
        let blank = chars_of(trim_text(t.as_str()).as_str()).len() == 0;
        if !(skip_blanks && blank) {
            push_deep(&mut out, t);
        }
        i = i + 1;
    }
    out
}

/// The smallest of the first `n` columns.
pub open spec fn leftmost(cols: Seq<usize>, n: nat) -> usize
    decreases n,
{
    if n <= 1 || n > cols.len() {
        cols[0]
    } else {
        let before = leftmost(cols, (n - 1) as nat);
        if cols[n - 1] < before {
            cols[n - 1]
        } else {
            before
        }
    }
}

/// The first `n` cells of a row with the listed columns replaced by one cell at `at`.
pub open spec fn merged_cells(row: Seq<Json>, cols: Seq<usize>, at: int, cell: Json, n: nat) -> Seq<
    Json,
>
    decreases n,
{
    if n == 0 || n > row.len() {
        Seq::empty()
    } else {
        let before = merged_cells(row, cols, at, cell, (n - 1) as nat);
        if n - 1 == at {
            before.push(cell)
        } else if cols.contains((n - 1) as usize) {
            before
        } else {
            before.push(row[n - 1])
        }
    }
}

/// How columns are joined.
pub struct Joining {
    pub sep: String,
    pub into: String,
    pub skip_blanks: bool,
    pub keep: bool,
}

/// Row `i` of the sheet with columns joined: the joined cell at the end where the
/// columns are kept, else in place of the leftmost of them.
pub open spec fn joined_row(
    rows: RowsView,
    start: int,
    cols: Seq<usize>,
    j: Joining,
    i: int,
) -> Seq<Json> {
    let cell = Json::Text(
        if i < start {
            j.into@
        } else {
            join(listed_texts(rows[i], cols, j.skip_blanks, cols.len()), j.sep@)
        },
    );
    if j.keep {
        rows[i].push(cell)
    } else {
        merged_cells(
            rows[i],
            cols,
            leftmost(cols, cols.len()) as int,
            cell,
            rows[i].len(),
        )
    }
}

fn find_leftmost(cols: &Vec<usize>) -> (r: usize)
    requires
        cols@.len() > 0,
    ensures
        r == leftmost(cols@, cols@.len()),
{
    let mut best: usize = cols[0];
    let mut i: usize = 1;
    while i < cols.len()
        invariant
            1 <= i <= cols@.len(),
            best == leftmost(cols@, i as nat),
        decreases cols@.len() - i,
    {
        if cols[i] < best {
            best = cols[i];
        }
        i = i + 1;
    }
    best
}

fn merge_cells(row: &Vec<Value>, cols: &Vec<usize>, at: usize, cell: &Value) -> (r: Vec<Value>)
    ensures
        r.deep_view() == merged_cells(
            row.deep_view(),
            cols@,
            at as int,
            cell.deep_view(),
            row@.len(),
        ),
{
    let mut out: Vec<Value> = Vec::new();
    let mut i: usize = 0;
    assert(out.deep_view() =~= Seq::<Json>::empty());
    assert(row.deep_view().len() == row@.len());
    while i < row.len()
        invariant
            i <= row@.len(),
            row.deep_view().len() == row@.len(),
            out.deep_view() == merged_cells(
                row.deep_view(),
                cols@,
                at as int,
                cell.deep_view(),
                i as nat,
            ),
        decreases row@.len() - i,
    {
        assert(row.deep_view()[i as int] == row@[i as int].deep_view());
        if i == at {
            push_deep(&mut out, cell.dup());
        } else if !is_listed(cols, i) {
            push_deep(&mut out, row[i].dup());
        }
        i = i + 1;
    }
    out
}

fn make_joined_row(
    rows: &Rows,
    start: usize,
    cols: &Vec<usize>,
    at: usize,
    j: &Joining,
    i: usize,
) -> (r: Vec<Value>)
    requires
        i < rows@.len(),
        cols@.len() > 0,
        at == leftmost(cols@, cols@.len()),
    ensures
        r.deep_view() == joined_row(rows.deep_view(), start as int, cols@, *j, i as int),
{
    assert(rows.deep_view()[i as int] == rows@[i as int].deep_view());
    let cell = if i < start {
        text_value(j.into.as_str())
    } else {
        let parts = texts_of_listed(&rows[i], cols, j.skip_blanks);
        Value::Text(join_texts(&parts, j.sep.as_str()))
    };
    if j.keep {
        let mut out = copy_values(&rows[i]);
        push_deep(&mut out, cell);
        out
    } else {
        assert(rows@[i as int].deep_view().len() == rows@[i as int]@.len());
        merge_cells(&rows[i], cols, at, &cell)
    }
}

/// The columns that options list; there must be at least one.
pub open spec fn wanted_columns(opts: Json, header: bool, rows: RowsView) -> Result<
    Seq<usize>,
    Seq<char>,
> {
    match crate::value::as_array(field(opts, "columns"@)) {
        Some(a) => if a.len() == 0 {
            Err("columns must list at least one column"@)
        } else {
            columns_among(a, header, rows, a.len())
        },
        None => Err("missing columns (expected array of names or indices)"@),
    }
}

pub fn read_columns(opts: &Value, header: bool, rows: &Rows) -> (r: Result<Vec<usize>, String>)
    ensures
        res_cols(r) == wanted_columns(opts.deep_view(), header, rows.deep_view()),
{
    match opts.array_at("columns") {
        Some(a) => {
            assert(a.deep_view().len() == a@.len());
            if a.len() == 0 {
                Err(copy_text("columns must list at least one column"))
            } else {
                resolve_cols(a, header, rows)
            }
        },
        None => Err(copy_text("missing columns (expected array of names or indices)")),
    }
}

/// Joins columns into one.
pub fn op_sheet_concat_columns(rows: &Rows, header: bool, cols: &Vec<usize>, j: &Joining) -> (r:
    Rows)
    requires
        cols@.len() > 0,
    ensures
        ({
            let rv = rows.deep_view();
            r.deep_view() == Seq::new(
                rv.len(),
                |i: int| joined_row(rv, data_start(header, rv), cols@, *j, i),
            )
        }),
{
    let start = first_data_row(header, rows);
    let at = find_leftmost(cols);
    let ghost rv = rows.deep_view();
    let make = |i: usize| -> (row: Vec<Value>)
        requires
            i < rows@.len(),
            cols@.len() > 0,
            at == leftmost(cols@, cols@.len()),
        ensures
            row.deep_view() == joined_row(rows.deep_view(), start as int, cols@, *j, i as int),
        { make_joined_row(rows, start, cols, at, j, i) };
    let ghost g = |i: int| joined_row(rv, start as int, cols@, *j, i);
    assert(rv.len() == rows@.len());
    tabulate(rows.len(), &make, Ghost(g))
}

// ── wide sheets made long ───────────────────────────────────────────────────

/// The columns below `n` that are not listed.
pub open spec fn unlisted(cols: Seq<usize>, n: nat) -> Seq<usize>
    decreases n,
{
    if n == 0 {
        Seq::empty()
    } else {
        let before = unlisted(cols, (n - 1) as nat);
        if cols.contains((n - 1) as usize) {
            before
        } else {
            before.push((n - 1) as usize)
        }
    }
}

pub fn other_columns(cols: &Vec<usize>, n: usize) -> (r: Vec<usize>)
    ensures
        r@ == unlisted(cols@, n as nat),
        forall|k: int| 0 <= k < r@.len() ==> #[trigger] r@[k] < n,
{
    let mut out: Vec<usize> = Vec::new();
    let mut i: usize = 0;
    while i < n
        invariant
            i <= n,
            out@ == unlisted(cols@, i as nat),
            forall|k: int| 0 <= k < out@.len() ==> #[trigger] out@[k] < i,
        decreases n - i,
    {
        if !is_listed(cols, i) {
            out.push(i);
        }
        i = i + 1;
    }
    out
}

/// The identifying columns and the columns to unpivot: those listed, or all others.
pub open spec fn melted_columns(opts: Json, header: bool, rows: RowsView) -> Result<
    (Seq<usize>, Seq<usize>),
    Seq<char>,
> {
    match listed_columns(field(opts, "id_vars"@), header, rows) {
        Err(e) => Err(e),
        Ok(ids) => match field(opts, "value_vars"@) {
            Some(v) => match listed_columns(Some(v), header, rows) {
                Err(e) => Err(e),
                Ok(vals) => Ok((ids, vals)),
            },
            None => Ok((ids, unlisted(ids, widest(rows, rows.len())))),
        },
    }
}

pub open spec fn res_two_cols(r: Result<(Vec<usize>, Vec<usize>), String>) -> Result<
    (Seq<usize>, Seq<usize>),
    Seq<char>,
> {
    match r {
        Ok(p) => Ok((p.0@, p.1@)),
        Err(e) => Err(e@),
    }
}

pub fn read_melted_columns(opts: &Value, header: bool, rows: &Rows) -> (r: Result<
    (Vec<usize>, Vec<usize>),
    String,
>)
    ensures
        res_two_cols(r) == melted_columns(opts.deep_view(), header, rows.deep_view()),
{
    let ids = match resolve_list(opts.get("id_vars"), header, rows) {
        Ok(c) => c,
        Err(e) => {
            return Err(e);
        },
    };
    match opts.get("value_vars") {
        Some(v) => match resolve_list(Some(v), header, rows) {
            Ok(vals) => Ok((ids, vals)),
            Err(e) => Err(e),
        },
        None => {
            assert(rows.deep_view().len() == rows@.len());
            let vals = other_columns(&ids, count_columns(rows));
            Ok((ids, vals))
        },
    }
}

/// The listed columns of a row.
pub open spec fn chosen_cells(row: Seq<Json>, cols: Seq<usize>) -> Seq<Json> {
    Seq::new(cols.len(), |i: int| cell_at(row, cols[i] as int))
}

pub fn choose_cells(row: &Vec<Value>, cols: &Vec<usize>) -> (r: Vec<Value>)
    ensures
        r.deep_view() == chosen_cells(row.deep_view(), cols@),
{
    let pick = |i: usize| -> (v: Value)
        requires
            i < cols@.len(),
        ensures
            v.deep_view() == cell_at(row.deep_view(), cols@[i as int] as int),
        { copy_cell(row, cols[i]) };
    let ghost g = |i: int| cell_at(row.deep_view(), cols@[i] as int);
    let out = tabulate(cols.len(), &pick, Ghost(g));
    assert(out.deep_view() =~= chosen_cells(row.deep_view(), cols@));
    out
}

/// A row in long form: one row for each unpivoted column, with the identifying cells,
/// the column's name and its cell.
pub open spec fn melted_row(
    rows: RowsView,
    header: bool,
    ids: Seq<usize>,
    vals: Seq<usize>,
    i: int,
) -> RowsView {
    Seq::new(
        vals.len(),
        |k: int|
            chosen_cells(rows[i], ids) + seq![
                Json::Text(checked_name(header, rows, vals[k] as int)),
                cell_at(rows[i], vals[k] as int),
            ],
    )
}

/// The rows from `start` up to `n` in long form.
pub open spec fn melted_data(
    rows: RowsView,
    header: bool,
    ids: Seq<usize>,
    vals: Seq<usize>,
    n: int,
) -> RowsView
    decreases n - data_start(header, rows),
{
    if n <= data_start(header, rows) || n > rows.len() {
        Seq::empty()
    } else {
        melted_data(rows, header, ids, vals, n - 1) + melted_row(rows, header, ids, vals, n - 1)
    }
}

/// A sheet in long form, under its header.
pub open spec fn melted(
    rows: RowsView,
    header: bool,
    ids: Seq<usize>,
    vals: Seq<usize>,
    var_name: Seq<char>,
    value_name: Seq<char>,
) -> RowsView {
    seq![
        Seq::new(ids.len(), |i: int| Json::Text(checked_name(header, rows, ids[i] as int)))
            + seq![Json::Text(var_name), Json::Text(value_name)],
    ] + melted_data(rows, header, ids, vals, rows.len() as int)
}

fn push_melted(
    out: &mut Rows,
    rows: &Rows,
    header: bool,
    ids: &Vec<usize>,
    vals: &Vec<usize>,
    i: usize,
)
    requires
        i < rows@.len(),
    ensures
        final(out).deep_view() == old(out).deep_view() + melted_row(
            rows.deep_view(),
            header,
            ids@,
            vals@,
            i as int,
        ),
{
    let ghost rv = rows.deep_view();
    assert(rv[i as int] == rows@[i as int].deep_view());
    let make = |k: usize| -> (row: Vec<Value>)
        requires
            k < vals@.len(),
            i < rows@.len(),
        ensures
            row.deep_view() == chosen_cells(rows@[i as int].deep_view(), ids@) + seq![
                Json::Text(checked_name(header, rows.deep_view(), vals@[k as int] as int)),
                cell_at(rows@[i as int].deep_view(), vals@[k as int] as int),
            ],
        {
            let mut row = choose_cells(&rows[i], ids);
            let ghost front = row.deep_view();
            push_deep(&mut row, Value::Text(name_of_checked(header, rows, vals[k])));
            push_deep(&mut row, copy_cell(&rows[i], vals[k]));
            assert(row.deep_view() =~= front + seq![
                Json::Text(checked_name(header, rows.deep_view(), vals@[k as int] as int)),
                cell_at(rows@[i as int].deep_view(), vals@[k as int] as int),
            ]);
            row
        };
    let ghost g = |k: int|
        chosen_cells(rv[i as int], ids@) + seq![
            Json::Text(checked_name(header, rv, vals@[k] as int)),
            cell_at(rv[i as int], vals@[k] as int),
        ];
    let more = tabulate(vals.len(), &make, Ghost(g));
    assert(more.deep_view() =~= melted_row(rv, header, ids@, vals@, i as int));
    append_deep(out, more);
}

/// A sheet made long: each unpivoted cell in a row of its own.
pub fn op_sheet_unpivot(
    rows: &Rows,
    header: bool,
    ids: &Vec<usize>,
    vals: &Vec<usize>,
    var_name: &str,
    value_name: &str,
) -> (r: Rows)
    requires
        forall|i: int|
            0 <= i < ids@.len() ==> #[trigger] ids@[i] < widest(
                rows.deep_view(),
                rows.deep_view().len(),
            ),
        forall|i: int|
            0 <= i < vals@.len() ==> #[trigger] vals@[i] < widest(
                rows.deep_view(),
                rows.deep_view().len(),
            ),
    ensures
        r.deep_view() == melted(rows.deep_view(), header, ids@, vals@, var_name@, value_name@),
{
    let ghost rv = rows.deep_view();
    let name = |i: usize| -> (v: Value)
        requires
            i < ids@.len(),
        ensures
            v.deep_view() == Json::Text(
                checked_name(header, rows.deep_view(), ids@[i as int] as int),
            ),
        { Value::Text(name_of_checked(header, rows, ids[i])) };
    let ghost g = |i: int| Json::Text(checked_name(header, rv, ids@[i] as int));
    let mut head = tabulate(ids.len(), &name, Ghost(g));
    let ghost names = head.deep_view();
    push_deep(&mut head, text_value(var_name));
    push_deep(&mut head, text_value(value_name));
    assert(head.deep_view() =~= names + seq![Json::Text(var_name@), Json::Text(value_name@)]);
    let ghost hv = head.deep_view();
    let mut out: Rows = Vec::new();
    push_deep(&mut out, head);
    let start = first_data_row(header, rows);
    let mut i: usize = start;
    assert(out.deep_view() =~= seq![hv] + melted_data(rv, header, ids@, vals@, i as int));
    while i < rows.len()
        invariant
            start <= i <= rows@.len(),
            rv == rows.deep_view(),
            start == data_start(header, rv),
            out.deep_view() == seq![hv] + melted_data(rv, header, ids@, vals@, i as int),
        decreases rows@.len() - i,
    {
        push_melted(&mut out, rows, header, ids, vals, i);
        i = i + 1;
        assert(out.deep_view() =~= seq![hv] + melted_data(rv, header, ids@, vals@, i as int));
    }
    assert(out.deep_view() =~= melted(rv, header, ids@, vals@, var_name@, value_name@));
    out
}

// ── two sheets joined ───────────────────────────────────────────────────────

/// The text by which a record is joined.
pub open spec fn join_key(rec: Json, on: Seq<char>) -> Seq<char> {
    cell_text(
        match field(rec, on) {
            Some(v) => v,
            None => Json::Null,
        },
    )
}

fn make_join_key(rec: &Value, on: &str) -> (r: String)
    ensures
        r@ == join_key(rec.deep_view(), on@),
{
    match rec.get(on) {
        Some(v) => cell_to_string(v),
        None => cell_to_string(&Value::Null),
    }
}

/// The fields among the first `n` that are not the key.
pub open spec fn other_fields(fields: Seq<Seq<char>>, key: Seq<char>, n: nat) -> Seq<Seq<char>>
    decreases n,
{
    if n == 0 || n > fields.len() {
        Seq::empty()
    } else {
        let before = other_fields(fields, key, (n - 1) as nat);
        if fields[n - 1] == key {
            before
        } else {
            before.push(fields[n - 1])
        }
    }
}

/// The name that a field of the second sheet gets: its own, or with `_right` behind it
/// where the first sheet has one of that name.
pub open spec fn right_name(left: Seq<Seq<char>>, f: Seq<char>) -> Seq<char> {
    if left.contains(f) {
        f + "_right"@
    } else {
        f
    }
}

/// The rows of a record of the first sheet: one for each of the first `n` records of the
/// second sheet with the same key.
pub open spec fn matching_rows(
    lfields: Seq<Seq<char>>,
    lrec: Json,
    rfields: Seq<Seq<char>>,
    rrecs: Seq<Json>,
    left_on: Seq<char>,
    right_on: Seq<char>,
    n: nat,
) -> RowsView
    decreases n,
{
    if n == 0 || n > rrecs.len() {
        Seq::empty()
    } else {
        let before = matching_rows(
            lfields,
            lrec,
            rfields,
            rrecs,
            left_on,
            right_on,
            (n - 1) as nat,
        );
        if join_key(rrecs[n - 1], right_on) == join_key(lrec, left_on) {
            before.push(record_row(lfields, lrec) + record_row(rfields, rrecs[n - 1]))
        } else {
            before
        }
    }
}

/// Two sheets to be joined: the fields and the records of each, and the key fields.
pub struct JoinView {
    pub lfields: Seq<Seq<char>>,
    pub lrecs: Seq<Json>,
    pub rfields: Seq<Seq<char>>,
    pub rrecs: Seq<Json>,
    pub left_on: Seq<char>,
    pub right_on: Seq<char>,
    pub keep_left: bool,
}

pub open spec fn extra_fields(j: JoinView) -> Seq<Seq<char>> {
    other_fields(j.rfields, j.right_on, j.rfields.len())
}

/// The rows of record `i` of the first sheet: its matches, or the record alone where it
/// has none and such records are kept.
pub open spec fn rows_of_left(j: JoinView, i: int) -> RowsView {
    let extra = extra_fields(j);
    let found = matching_rows(
        j.lfields,
        j.lrecs[i],
        extra,
        j.rrecs,
        j.left_on,
        j.right_on,
        j.rrecs.len(),
    );
    if found.len() == 0 && j.keep_left {
        seq![record_row(j.lfields, j.lrecs[i]) + Seq::new(extra.len(), |k: int| Json::Null)]
    } else {
        found
    }
}

/// The rows of the first `n` records of the first sheet.
pub open spec fn joined_rows(j: JoinView, n: nat) -> RowsView
    decreases n,
{
    if n == 0 || n > j.lrecs.len() {
        Seq::empty()
    } else {
        joined_rows(j, (n - 1) as nat) + rows_of_left(j, n - 1)
    }
}

/// How many pairs of the first `n` records of the first sheet match.
pub open spec fn matched_count(j: JoinView, n: nat) -> nat
    decreases n,
{
    if n == 0 || n > j.lrecs.len() {
        0
    } else {
        matched_count(j, (n - 1) as nat) + matching_rows(
            j.lfields,
            j.lrecs[n - 1],
            extra_fields(j),
            j.rrecs,
            j.left_on,
            j.right_on,
            j.rrecs.len(),
        ).len()
    }
}

/// The header of two joined sheets.
pub open spec fn joined_header(j: JoinView) -> Seq<Json> {
    let extra = extra_fields(j);
    Seq::new(j.lfields.len(), |i: int| Json::Text(j.lfields[i])) + Seq::new(
        extra.len(),
        |i: int| Json::Text(right_name(j.lfields, extra[i])),
    )
}

/// The sheets that are joined.
pub struct JoinInput {
    pub lfields: Vec<String>,
    pub lrecs: Vec<Value>,
    pub rfields: Vec<String>,
    pub rrecs: Vec<Value>,
    pub left_on: String,
    pub right_on: String,
    pub keep_left: bool,
}

impl View for JoinInput {
    type V = JoinView;

    open spec fn view(&self) -> JoinView {
        JoinView {
            lfields: self.lfields.deep_view(),
            lrecs: self.lrecs.deep_view(),
            rfields: self.rfields.deep_view(),
            rrecs: self.rrecs.deep_view(),
            left_on: self.left_on@,
            right_on: self.right_on@,
            keep_left: self.keep_left,
        }
    }
}

pub fn row_of_record(fields: &Vec<String>, rec: &Value) -> (r: Vec<Value>)
    ensures
        r.deep_view() == record_row(fields.deep_view(), rec.deep_view()),
{
    let ghost fv = fields.deep_view();
    let pick = |i: usize| -> (v: Value)
        requires
            i < fields@.len(),
        ensures
            v.deep_view() == (match field(rec.deep_view(), fields@[i as int]@) {
                Some(v) => v,
                None => Json::Null,
            }),
        {
            match rec.get(fields[i].as_str()) {
                Some(v) => v.dup(),
                None => Value::Null,
            }
        };
    let ghost g = |i: int|
        match field(rec.deep_view(), fv[i]) {
            Some(v) => v,
            None => Json::Null,
        };
    assert(fv.len() == fields@.len());
    assert forall|i: usize| i < fields@.len() implies fv[i as int] == (#[trigger] fields@[
        i as int
    ])@ by {}
    let out = tabulate(fields.len(), &pick, Ghost(g));
    assert(out.deep_view() =~= record_row(fv, rec.deep_view()));
    out
}

fn fields_but(fields: &Vec<String>, key: &str) -> (r: Vec<String>)
    ensures
        r.deep_view() == other_fields(fields.deep_view(), key@, fields@.len()),
{
    let mut out: Vec<String> = Vec::new();
    let mut i: usize = 0;
    assert(out.deep_view() =~= Seq::<Seq<char>>::empty());
    while i < fields.len()
        invariant
            i <= fields@.len(),
            out.deep_view() == other_fields(fields.deep_view(), key@, i as nat),
        decreases fields@.len() - i,
    {
        assert(fields.deep_view()[i as int] == fields@[i as int]@);
        if !same(fields[i].as_str(), key) {
            push_deep(&mut out, fields[i].clone());
        }
        i = i + 1;
    }
    out
}

fn find_matches(j: &JoinInput, extra: &Vec<String>, i: usize) -> (r: Rows)
    requires
        i < j.lrecs@.len(),
    ensures
        r.deep_view() == matching_rows(
            j@.lfields,
            j@.lrecs[i as int],
            extra.deep_view(),
            j@.rrecs,
            j@.left_on,
            j@.right_on,
            j@.rrecs.len(),
        ),
{
    assert(j@.lrecs[i as int] == j.lrecs@[i as int].deep_view());
    let key = make_join_key(&j.lrecs[i], j.left_on.as_str());
    let mut out: Rows = Vec::new();
    let mut k: usize = 0;
    assert(out.deep_view() =~= Seq::<Seq<Json>>::empty());
    while k < j.rrecs.len()
        invariant
            k <= j.rrecs@.len(),
            i < j.lrecs@.len(),
            j@.lrecs[i as int] == j.lrecs@[i as int].deep_view(),
            key@ == join_key(j@.lrecs[i as int], j@.left_on),
            out.deep_view() == matching_rows(
                j@.lfields,
                j@.lrecs[i as int],
                extra.deep_view(),
                j@.rrecs,
                j@.left_on,
                j@.right_on,
                k as nat,
            ),
        decreases j.rrecs@.len() - k,
    {
        assert(j@.rrecs[k as int] == j.rrecs@[k as int].deep_view());
        let other = make_join_key(&j.rrecs[k], j.right_on.as_str());
        if same(other.as_str(), key.as_str()) {
            let mut row = row_of_record(&j.lfields, &j.lrecs[i]);
            append_deep(&mut row, row_of_record(extra, &j.rrecs[k]));
            push_deep(&mut out, row);
        }
        k = k + 1;
    }
    out
}

fn make_joined_header(j: &JoinInput, extra: &Vec<String>) -> (r: Vec<Value>)
    requires
        extra.deep_view() == extra_fields(j@),
    ensures
        r.deep_view() == joined_header(j@),
{
    let ghost lv = j.lfields.deep_view();
    let ghost ev = extra.deep_view();
    let left = |i: usize| -> (v: Value)
        requires
            i < j.lfields@.len(),
        ensures
            v.deep_view() == Json::Text(j.lfields@[i as int]@),
        { text_value(j.lfields[i].as_str()) };
    let right = |i: usize| -> (v: Value)
        requires
            i < extra@.len(),
        ensures
            v.deep_view() == Json::Text(right_name(j.lfields.deep_view(), extra@[i as int]@)),
        {
            if crate::xml::one_of(&j.lfields, extra[i].as_str()) {
                Value::Text(concat2(extra[i].as_str(), "_right"))
            } else {
                text_value(extra[i].as_str())
            }
        };
    let ghost gl = |i: int| Json::Text(lv[i]);
    let ghost gr = |i: int| Json::Text(right_name(lv, ev[i]));
    assert(lv.len() == j.lfields@.len());
    assert(ev.len() == extra@.len());
    assert forall|i: usize| i < j.lfields@.len() implies lv[i as int] == (#[trigger] j.lfields@[
        i as int
    ])@ by {}
    assert forall|i: usize| i < extra@.len() implies ev[i as int] == (#[trigger] extra@[
        i as int
    ])@ by {}
    let mut out = tabulate(j.lfields.len(), &left, Ghost(gl));
    let more = tabulate(extra.len(), &right, Ghost(gr));
    append_deep(&mut out, more);
    assert(out.deep_view() =~= joined_header(j@));
    out
}

/// Two sheets joined on a key: the rows under their header, and how many pairs match.
pub fn op_sheet_join(j: &JoinInput) -> (r: (Rows, u64))
    ensures
        r.0.deep_view() == seq![joined_header(j@)] + joined_rows(j@, j@.lrecs.len()),
        r.1 == in_64_bits(matched_count(j@, j@.lrecs.len())),
        exists|from: Seq<(int, Option<int>)>| #[trigger]
            is_join(j@, r.0.deep_view(), matched_count(j@, j@.lrecs.len()), from),
{
    proof {
        let from = joins_pair_their_records(j@);
    }
    let extra = fields_but(&j.rfields, j.right_on.as_str());
    let ghost jv = j@;
    assert(jv.rfields.len() == j.rfields@.len());
    let mut out: Rows = Vec::new();
    push_deep(&mut out, make_joined_header(j, &extra));
    let ghost head = joined_header(jv);
    let mut matched: u64 = 0;
    let mut i: usize = 0;
    assert(out.deep_view() =~= seq![head] + joined_rows(jv, 0));
    while i < j.lrecs.len()
        invariant
            i <= j.lrecs@.len(),
            jv == j@,
            extra.deep_view() == extra_fields(jv),
            out.deep_view() == seq![head] + joined_rows(jv, i as nat),
            matched == in_64_bits(matched_count(jv, i as nat)),
        decreases j.lrecs@.len() - i,
    {
        assert(jv.lrecs[i as int] == j.lrecs@[i as int].deep_view());
        let found = find_matches(j, &extra, i);
        assert(found.deep_view().len() == found@.len());
        matched = add_count(
            matched,
            found.len() as u64,
            Ghost(matched_count(jv, i as nat)),
            Ghost(found@.len()),
        );
        if found.len() == 0 {
            if j.keep_left {
                let mut row = row_of_record(&j.lfields, &j.lrecs[i]);
                let blank = |k: usize| -> (v: Value)
                    ensures
                        v.deep_view() == Json::Null,
                    { Value::Null };
                let ghost g = |k: int| Json::Null;
                let blanks = tabulate(extra.len(), &blank, Ghost(g));
                assert(extra.deep_view().len() == extra@.len());
                assert(blanks.deep_view() =~= Seq::new(
                    extra_fields(jv).len(),
                    |k: int| Json::Null,
                ));
                append_deep(&mut row, blanks);
                let ghost rv = row.deep_view();
                push_deep(&mut out, row);
                assert(rows_of_left(jv, i as int) =~= seq![rv]);
            } else {
                assert(rows_of_left(jv, i as int) =~= Seq::<Seq<Json>>::empty());
            }
        } else {
            append_deep(&mut out, found);
        }
        i = i + 1;
        assert(out.deep_view() =~= seq![head] + joined_rows(jv, i as nat));
    }
    (out, matched)
}

/// The value of a record under a field; null where it has none.
pub open spec fn value_under(rec: Json, f: Seq<char>) -> Json {
    match field(rec, f) {
        Some(v) => v,
        None => Json::Null,
    }
}

/// Whether record `i` of the first sheet and record `k` of the second have the same key.
pub open spec fn keys_match(j: JoinView, i: int, k: int) -> bool {
    0 <= i < j.lrecs.len() && 0 <= k < j.rrecs.len() && cell_text(
        value_under(j.lrecs[i], j.left_on),
    ) == cell_text(value_under(j.rrecs[k], j.right_on))
}

/// The fields of the second sheet but for its key.
pub open spec fn fields_beside_key(j: JoinView) -> Seq<Seq<char>> {
    j.rfields.filter(|f: Seq<char>| f != j.right_on)
}

/// Whether a row holds a record of the first sheet and behind it one of the second, without
/// its key, or nothing.
pub open spec fn is_row_of(j: JoinView, row: Seq<Json>, i: int, k: Option<int>) -> bool {
    let n = j.lfields.len() as int;
    let extra = fields_beside_key(j);
    &&& row.len() == n + extra.len()
    &&& forall|c: int| 0 <= c < n ==> #[trigger] row[c] == value_under(j.lrecs[i], j.lfields[c])
    &&& forall|c: int|
        n <= c < row.len() ==> #[trigger] row[c] == match k {
            Some(k) => value_under(j.rrecs[k], extra[c - n]),
            None => Json::Null,
        }
}

/// Whether `a` stands before `b`: by the first sheet, then by the second.
pub open spec fn pair_before(a: (int, Option<int>), b: (int, Option<int>)) -> bool {
    a.0 < b.0 || (a.0 == b.0 && (a.1 matches Some(x) && b.1 matches Some(y) && x < y))
}

/// Whether rows come, one by one and in order, of just the pairs of records that match, and
/// of the records of the first sheet that match none where such records are kept.
pub open spec fn are_joined_from(
    j: JoinView,
    n: nat,
    rows: RowsView,
    from: Seq<(int, Option<int>)>,
) -> bool {
    &&& rows.len() == from.len()
    &&& forall|a: int|
        0 <= a < from.len() ==> 0 <= (#[trigger] from[a]).0 < n && is_row_of(
            j,
            rows[a],
            from[a].0,
            from[a].1,
        ) && match from[a].1 {
            Some(k) => keys_match(j, from[a].0, k),
            None => j.keep_left && forall|k: int| !keys_match(j, from[a].0, k),
        }
    &&& forall|a: int, b: int|
        0 <= a < b < from.len() ==> pair_before(#[trigger] from[a], #[trigger] from[b])
    &&& forall|i: int, k: int| #[trigger]
        keys_match(j, i, k) && i < n ==> from.contains((i, Some(k)))
    &&& forall|i: int|
        0 <= i < n && j.keep_left && (forall|k: int| !keys_match(j, i, k)) ==> #[trigger]
            from.contains((i, None))
}

/// Whether a sheet is the join of two: their fields, those of the second without its key and
/// renamed where the first has the name, and then a row for each pair of records that match.
/// `from` says which records a row comes of, and `matched` counts the pairs.
pub open spec fn is_join(
    j: JoinView,
    rows: RowsView,
    matched: nat,
    from: Seq<(int, Option<int>)>,
) -> bool {
    let n = j.lfields.len() as int;
    let extra = fields_beside_key(j);
    &&& rows.len() > 0
    &&& rows[0].len() == n + extra.len()
    &&& forall|c: int| 0 <= c < n ==> #[trigger] rows[0][c] == Json::Text(j.lfields[c])
    &&& forall|c: int|
        n <= c < rows[0].len() ==> #[trigger] rows[0][c] == Json::Text(
            if exists|i: int| 0 <= i < n && j.lfields[i] == extra[c - n] {
                extra[c - n] + "_right"@
            } else {
                extra[c - n]
            },
        )
    &&& are_joined_from(j, j.lrecs.len(), rows.drop_first(), from)
    &&& matched == from.filter(|p: (int, Option<int>)| p.1 is Some).len()
}

proof fn lemma_other_fields(fields: Seq<Seq<char>>, key: Seq<char>, n: nat)
    requires
        n <= fields.len(),
    ensures
        other_fields(fields, key, n) == fields.take(n as int).filter(|f: Seq<char>| f != key),
    decreases n,
{
    let keep = |f: Seq<char>| f != key;
    let part = fields.take(n as int);
    if n > 0 {
        lemma_other_fields(fields, key, (n - 1) as nat);
        assert(part.drop_last() =~= fields.take(n - 1));
        assert(part.last() == fields[n - 1]);
        reveal(Seq::filter);
    } else {
        assert(part =~= Seq::<Seq<char>>::empty());
        reveal(Seq::filter);
        assert(part.filter(keep) =~= Seq::<Seq<char>>::empty());
    }
}

proof fn lemma_matches(j: JoinView, i: int, n: nat) -> (ks: Seq<int>)
    requires
        0 <= i < j.lrecs.len(),
        n <= j.rrecs.len(),
        extra_fields(j) == fields_beside_key(j),
    ensures
        ({
            let found = matching_rows(
                j.lfields,
                j.lrecs[i],
                extra_fields(j),
                j.rrecs,
                j.left_on,
                j.right_on,
                n,
            );
            &&& found.len() == ks.len()
            &&& forall|a: int|
                0 <= a < ks.len() ==> 0 <= #[trigger] ks[a] < n && keys_match(j, i, ks[a])
                    && is_row_of(j, found[a], i, Some(ks[a]))
        }),
        forall|a: int, b: int| 0 <= a < b < ks.len() ==> #[trigger] ks[a] < #[trigger] ks[b],
        forall|k: int| #[trigger] keys_match(j, i, k) && k < n ==> ks.contains(k),
    decreases n,
{
    if n == 0 {
        Seq::empty()
    } else {
        let m = n - 1;
        let before = lemma_matches(j, i, m as nat);
        let was = matching_rows(
            j.lfields,
            j.lrecs[i],
            extra_fields(j),
            j.rrecs,
            j.left_on,
            j.right_on,
            m as nat,
        );
        if keys_match(j, i, m) {
            let row = record_row(j.lfields, j.lrecs[i]) + record_row(extra_fields(j), j.rrecs[m]);
            let ks = before.push(m);
            assert(is_row_of(j, row, i, Some(m)));
            assert forall|a: int| 0 <= a < ks.len() implies 0 <= #[trigger] ks[a] < n
                && keys_match(j, i, ks[a]) && is_row_of(j, was.push(row)[a], i, Some(ks[a])) by {
                if a < before.len() {
                    assert(ks[a] == before[a]);
                }
            }
            assert forall|k: int| #[trigger] keys_match(j, i, k) && k < n implies ks.contains(
                k,
            ) by {
                if k < m {
                    assert(before.contains(k));
                    let a = choose|a: int| 0 <= a < before.len() && before[a] == k;
                    assert(ks[a] == k);
                } else {
                    assert(ks[before.len() as int] == k);
                }
            }
            ks
        } else {
            before
        }
    }
}

proof fn lemma_joined_from(j: JoinView, n: nat) -> (from: Seq<(int, Option<int>)>)
    requires
        n <= j.lrecs.len(),
        extra_fields(j) == fields_beside_key(j),
    ensures
        are_joined_from(j, n, joined_rows(j, n), from),
        matched_count(j, n) == from.filter(|p: (int, Option<int>)| p.1 is Some).len(),
    decreases n,
{
    let is_pair = |p: (int, Option<int>)| p.1 is Some;
    reveal(Seq::filter);
    if n == 0 {
        let from = Seq::<(int, Option<int>)>::empty();
        assert(from.filter(is_pair) =~= Seq::<(int, Option<int>)>::empty());
        from
    } else {
        let i = n - 1;
        let before = lemma_joined_from(j, i as nat);
        let was = joined_rows(j, i as nat);
        let ks = lemma_matches(j, i, j.rrecs.len());
        let mine = rows_of_left(j, i);
        let more: Seq<(int, Option<int>)> = if ks.len() > 0 {
            Seq::new(ks.len(), |a: int| (i, Some(ks[a])))
        } else if j.keep_left {
            seq![(i, None)]
        } else {
            Seq::empty()
        };
        let from = before + more;
        let rows = joined_rows(j, n);
        assert(rows == was + mine);
        assert(forall|k: int| ks.len() == 0 ==> !keys_match(j, i, k)) by {
            assert forall|k: int| ks.len() == 0 implies !keys_match(j, i, k) by {
                if keys_match(j, i, k) {
                    assert(ks.contains(k));
                }
            }
        }
        assert(mine.len() == more.len());
        assert forall|a: int| 0 <= a < from.len() implies 0 <= (#[trigger] from[a]).0 < n
            && is_row_of(j, rows[a], from[a].0, from[a].1) && match from[a].1 {
            Some(k) => keys_match(j, from[a].0, k),
            None => j.keep_left && forall|k: int| !keys_match(j, from[a].0, k),
        } by {
            if a < before.len() {
                assert(from[a] == before[a]);
                assert(rows[a] == was[a]);
            } else {
                let b = a - before.len();
                assert(from[a] == more[b]);
                assert(rows[a] == mine[b]);
                if ks.len() > 0 {
                    assert(keys_match(j, i, ks[b]));
                } else {
                    assert(is_row_of(j, mine[0], i, None));
                }
            }
        }
        assert forall|a: int, b: int| 0 <= a < b < from.len() implies pair_before(
            #[trigger] from[a],
            #[trigger] from[b],
        ) by {
            if b < before.len() {
                assert(from[a] == before[a] && from[b] == before[b]);
            } else if a < before.len() {
                assert(from[a] == before[a]);
                assert(from[b] == more[b - before.len()]);
                assert(before[a].0 < i);
            } else {
                assert(from[a] == more[a - before.len()]);
                assert(from[b] == more[b - before.len()]);
                assert(ks[a - before.len()] < ks[b - before.len()]);
            }
        }
        assert forall|l: int, k: int| #[trigger] keys_match(j, l, k) && l < n implies from.contains(
            (l, Some(k)),
        ) by {
            if l < i {
                assert(before.contains((l, Some(k))));
                let a = choose|a: int| 0 <= a < before.len() && before[a] == (l, Some(k));
                assert(from[a] == (l, Some(k)));
            } else {
                assert(ks.contains(k));
                let a = choose|a: int| 0 <= a < ks.len() && ks[a] == k;
                assert(from[before.len() + a] == (l, Some(k)));
            }
        }
        assert forall|l: int|
            0 <= l < n && j.keep_left && (forall|k: int| !keys_match(j, l, k)) implies #[trigger]
            from.contains((l, None)) by {
            let e: (int, Option<int>) = (l, None);
            if l < i {
                assert(before.contains(e));
                let a = choose|a: int| 0 <= a < before.len() && before[a] == e;
                assert(from[a] == e);
            } else {
                if ks.len() > 0 {
                    assert(keys_match(j, i, ks[0]));
                }
                assert(from[before.len() as int] == e);
            }
        }
        Seq::filter_distributes_over_add(before, more, is_pair);
        if ks.len() > 0 {
            lemma_all_kept(more, is_pair);
        } else if j.keep_left {
            assert(more.drop_last() =~= Seq::<(int, Option<int>)>::empty());
            assert(more.drop_last().filter(is_pair).len() == 0);
            assert(more.filter(is_pair).len() == 0);
        } else {
            assert(more.filter(is_pair).len() == 0);
        }
        from
    }
}

proof fn lemma_all_kept<T>(s: Seq<T>, keep: spec_fn(T) -> bool)
    requires
        forall|i: int| 0 <= i < s.len() ==> keep(#[trigger] s[i]),
    ensures
        s.filter(keep) == s,
    decreases s.len(),
{
    reveal(Seq::filter);
    if s.len() > 0 {
        let front = s.drop_last();
        assert forall|i: int| 0 <= i < front.len() implies keep(#[trigger] front[i]) by {
            assert(front[i] == s[i]);
        }
        lemma_all_kept(front, keep);
        assert(keep(s[s.len() - 1]));
        assert(s.filter(keep) =~= s);
    } else {
        assert(s.filter(keep) =~= s);
    }
}

/// A join has a row for each pair of records with the same key, in order, and none besides
/// but, where records of the first sheet are kept, one for each of them that matches none.
pub proof fn joins_pair_their_records(j: JoinView) -> (from: Seq<(int, Option<int>)>)
    ensures
        is_join(
            j,
            seq![joined_header(j)] + joined_rows(j, j.lrecs.len()),
            matched_count(j, j.lrecs.len()),
            from,
        ),
{
    let all = seq![joined_header(j)] + joined_rows(j, j.lrecs.len());
    lemma_other_fields(j.rfields, j.right_on, j.rfields.len());
    assert(j.rfields.take(j.rfields.len() as int) =~= j.rfields);
    let from = lemma_joined_from(j, j.lrecs.len());
    assert(all.drop_first() =~= joined_rows(j, j.lrecs.len()));
    let n = j.lfields.len() as int;
    let extra = fields_beside_key(j);
    assert forall|c: int| n <= c < all[0].len() implies #[trigger] all[0][c] == Json::Text(
        if exists|i: int| 0 <= i < n && j.lfields[i] == extra[c - n] {
            extra[c - n] + "_right"@
        } else {
            extra[c - n]
        },
    ) by {
        let f = extra[c - n];
        assert(j.lfields.contains(f) == exists|i: int| 0 <= i < n && j.lfields[i] == f);
    }
    from
}

/// An inner join has as many rows under its header as pairs of records match.
pub proof fn inner_joins_have_the_pairs_alone(j: JoinView)
    requires
        !j.keep_left,
    ensures
        joined_rows(j, j.lrecs.len()).len() == matched_count(j, j.lrecs.len()),
{
    let from = joins_pair_their_records(j);
    let all = seq![joined_header(j)] + joined_rows(j, j.lrecs.len());
    assert(all.drop_first() =~= joined_rows(j, j.lrecs.len()));
    lemma_all_kept(from, |p: (int, Option<int>)| p.1 is Some);
}

// ── columns chosen and added ────────────────────────────────────────────────

/// Each row reduced to the chosen columns.
pub open spec fn selected(rows: RowsView, cols: Seq<usize>) -> RowsView {
    Seq::new(rows.len(), |i: int| chosen_cells(rows[i], cols))
}

pub fn op_sheet_select(rows: &Rows, cols: &Vec<usize>) -> (r: Rows)
    ensures
        r.deep_view() == selected(rows.deep_view(), cols@),
{
    let ghost rv = rows.deep_view();
    let make = |i: usize| -> (row: Vec<Value>)
        requires
            i < rows@.len(),
        ensures
            row.deep_view() == chosen_cells(rows@[i as int].deep_view(), cols@),
        { choose_cells(&rows[i], cols) };
    let ghost g = |i: int| chosen_cells(rv[i], cols@);
    assert(rv.len() == rows@.len());
    assert forall|i: usize| i < rows@.len() implies rv[i as int] == (#[trigger] rows@[
        i as int
    ]).deep_view() by {}
    let out = tabulate(rows.len(), &make, Ghost(g));
    assert(out.deep_view() =~= selected(rv, cols@));
    out
}

/// The columns that are left when those that options list are dropped.
pub open spec fn kept_columns(opts: Json, header: bool, rows: RowsView) -> Result<
    Seq<usize>,
    Seq<char>,
> {
    match field(opts, "columns"@) {
        None => Err("missing columns to drop"@),
        Some(Json::Null) => Err("missing columns to drop"@),
        Some(v) => match listed_columns(Some(v), header, rows) {
            Err(e) => Err(e),
            Ok(drop) => Ok(unlisted(drop, widest(rows, rows.len()))),
        },
    }
}

/// Drops columns: each row reduced to the others. Also gives how many are kept.
pub fn op_sheet_drop(opts: &Value, header: bool, rows: &Rows) -> (r: Result<(Rows, usize), String>)
    ensures
        ({
            let rv = rows.deep_view();
            match (r, kept_columns(opts.deep_view(), header, rv)) {
                (Ok(p), Ok(cols)) => p.0.deep_view() == selected(rv, cols) && p.1 == cols.len(),
                (Err(e), Err(m)) => e@ == m,
                _ => false,
            }
        }),
{
    match opts.get("columns") {
        None => Err(copy_text("missing columns to drop")),
        Some(v) => {
            if v.is_null() {
                return Err(copy_text("missing columns to drop"));
            }
            match resolve_list(Some(v), header, rows) {
                Err(e) => Err(e),
                Ok(drop) => {
                    assert(rows.deep_view().len() == rows@.len());
                    let keep = other_columns(&drop, count_columns(rows));
                    let n: usize = keep.len();
                    Ok((op_sheet_select(rows, &keep), n))
                },
            }
        },
    }
}

/// What a new column holds: a constant, or the texts of other columns joined.
pub enum Derived {
    Constant(Value),
    Joined(Vec<usize>, String),
}

/// Row `i` with a cell of a new column at its end.
pub open spec fn extended_row(
    rows: RowsView,
    start: int,
    name: Seq<char>,
    d: Derived,
    i: int,
) -> Seq<Json> {
    rows[i].push(
        if i < start {
            Json::Text(name)
        } else {
            match d {
                Derived::Constant(v) => v.deep_view(),
                Derived::Joined(cols, sep) => Json::Text(
                    join(listed_texts(rows[i], cols@, false, cols@.len()), sep@),
                ),
            }
        },
    )
}

/// Adds a column to a sheet.
pub fn op_sheet_add_column(rows: &Rows, header: bool, name: &str, d: &Derived) -> (r: Rows)
    ensures
        ({
            let rv = rows.deep_view();
            r.deep_view() == Seq::new(
                rv.len(),
                |i: int| extended_row(rv, data_start(header, rv), name@, *d, i),
            )
        }),
{
    let start = first_data_row(header, rows);
    let ghost rv = rows.deep_view();
    let make = |i: usize| -> (row: Vec<Value>)
        requires
            i < rows@.len(),
        ensures
            row.deep_view() == extended_row(rows.deep_view(), start as int, name@, *d, i as int),
        {
            assert(rows.deep_view()[i as int] == rows@[i as int].deep_view());
            let mut row = copy_values(&rows[i]);
            let cell = if i < start {
                text_value(name)
            } else {
                match d {
                    Derived::Constant(v) => v.dup(),
                    Derived::Joined(cols, sep) => {
                        let parts = texts_of_listed(&rows[i], cols, false);
                        Value::Text(join_texts(&parts, sep.as_str()))
                    },
                }
            };
            push_deep(&mut row, cell);
            row
        };
    let ghost g = |i: int| extended_row(rv, start as int, name@, *d, i);
    assert(rv.len() == rows@.len());
    let out = tabulate(rows.len(), &make, Ghost(g));
    out
}

// ── totals ──────────────────────────────────────────────────────────────────

/// The numbers of column `c` in the rows from `start` up to `n`.
pub open spec fn column_sum_terms(
    nums: Seq<Seq<Option<u64>>>,
    start: int,
    c: int,
    n: int,
) -> Seq<u64>
    decreases n - start,
{
    if n <= start {
        Seq::empty()
    } else {
        let before = column_sum_terms(nums, start, c, n - 1);
        match num_at(nums, n - 1, c) {
            Some(x) => before.push(x),
            None => before,
        }
    }
}

fn terms_of_column(nums: &Nums, start: usize, c: usize, end: usize) -> (r: Vec<u64>)
    requires
        start <= end,
    ensures
        r@ == column_sum_terms(nums_view(nums@), start as int, c as int, end as int),
{
    let ghost nv = nums_view(nums@);
    let mut out: Vec<u64> = Vec::new();
    let mut i: usize = start;
    while i < end
        invariant
            start <= i <= end,
            nv == nums_view(nums@),
            out@ == column_sum_terms(nv, start as int, c as int, i as int),
        decreases end - i,
    {
        match number_of(nums, i, c) {
            Some(x) => {
                out.push(x);
            },
            None => {},
        }
        i = i + 1;
    }
    out
}

/// The numbers that the total of each column adds up.
pub open spec fn total_terms(rows: RowsView, nums: Seq<Seq<Option<u64>>>, header: bool) -> Seq<
    Seq<u64>,
> {
    Seq::new(
        widest(rows, rows.len()),
        |c: int| column_sum_terms(nums, data_start(header, rows), c, rows.len() as int),
    )
}

pub fn numbers_to_total(rows: &Rows, nums: &Nums, header: bool) -> (r: Vec<Vec<u64>>)
    ensures
        r.deep_view() == total_terms(rows.deep_view(), nums_view(nums@), header),
{
    let start = first_data_row(header, rows);
    let ghost rv = rows.deep_view();
    let ghost nv = nums_view(nums@);
    assert(rv.len() == rows@.len());
    let n: usize = count_columns(rows);
    let end: usize = rows.len();
    let make = |c: usize| -> (t: Vec<u64>)
        requires
            start <= end,
        ensures
            t@ == column_sum_terms(nums_view(nums@), start as int, c as int, end as int),
        { terms_of_column(nums, start, c, end) };
    let ghost g = |c: int| column_sum_terms(nv, start as int, c, end as int);
    assert forall|c: usize, t: Vec<u64>|
        c < n && #[trigger] make.ensures((c,), t) implies t.deep_view() == g(c as int) by {
        assert(t.deep_view() =~= t@);
    }
    let out = tabulate(n, &make, Ghost(g));
    assert(out.deep_view() =~= total_terms(rv, nv, header));
    out
}

/// The row of totals: the label, then the sum of each column that has numbers and an
/// empty text for the others.
pub open spec fn total_row(label: Seq<char>, terms: Seq<Seq<u64>>, sums: Seq<Json>) -> Seq<Json> {
    Seq::new(
        terms.len(),
        |c: int|
            if c == 0 {
                Json::Text(label)
            } else if terms[c].len() > 0 {
                result_at(sums, c)
            } else {
                Json::Text(Seq::empty())
            },
    )
}

/// How many of the first `n` columns have numbers.
pub open spec fn summed_count(terms: Seq<Seq<u64>>, n: nat) -> nat
    decreases n,
{
    if n == 0 || n > terms.len() {
        0
    } else {
        summed_count(terms, (n - 1) as nat) + if terms[n - 1].len() > 0 {
            1nat
        } else {
            0
        }
    }
}

/// A sheet with a row of totals at its end, and how many columns have numbers.
pub fn op_sheet_totals(rows: Rows, label: &str, terms: &Vec<Vec<u64>>, sums: &Vec<Value>) -> (r: (
    Rows,
    u64,
))
    ensures
        r.0.deep_view() == rows.deep_view().push(
            total_row(label@, terms.deep_view(), sums.deep_view()),
        ),
        r.1 == summed_count(terms.deep_view(), terms@.len()),
{
    let ghost tv = terms.deep_view();
    let make = |c: usize| -> (v: Value)
        requires
            c < terms@.len(),
        ensures
            v.deep_view() == (if c == 0 {
                Json::Text(label@)
            } else if terms@[c as int]@.len() > 0 {
                result_at(sums.deep_view(), c as int)
            } else {
                Json::Text(Seq::empty())
            }),
        {
            if c == 0 {
                text_value(label)
            } else if terms[c].len() > 0 {
                copy_cell(sums, c)
            } else {
                Value::Text(String::new())
            }
        };
    let ghost g = |c: int|
        if c == 0 {
            Json::Text(label@)
        } else if tv[c].len() > 0 {
            result_at(sums.deep_view(), c)
        } else {
            Json::Text(Seq::empty())
        };
    assert(tv.len() == terms@.len());
    assert forall|c: usize| c < terms@.len() implies tv[c as int].len() == (#[trigger] terms@[
        c as int
    ])@.len() by {
        assert(tv[c as int] == terms@[c as int].deep_view());
    }
    let row = tabulate(terms.len(), &make, Ghost(g));
    assert(row.deep_view() =~= total_row(label@, tv, sums.deep_view()));
    let mut count: u64 = 0;
    let mut i: usize = 0;
    let total: usize = terms.len();
    while i < total
        invariant
            i <= total,
            total == terms@.len(),
            tv == terms.deep_view(),
            count == summed_count(tv, i as nat),
            count <= i,
        decreases total - i,
    {
        assert(tv[i as int] == terms@[i as int].deep_view());
        if terms[i].len() > 0 {
            count = count + 1;
        }
        i = i + 1;
    }
    let mut out = rows;
    push_deep(&mut out, row);
    (out, count)
}

// ── rows and columns exchanged ──────────────────────────────────────────────

/// A sheet with rows and columns exchanged; short rows are filled up with nulls.
pub open spec fn transposed(rows: RowsView) -> RowsView {
    Seq::new(
        widest(rows, rows.len()),
        |c: int| Seq::new(rows.len(), |r: int| cell_at(rows[r], c)),
    )
}

fn make_column(rows: &Rows, c: usize) -> (r: Vec<Value>)
    ensures
        r.deep_view() == Seq::new(
            rows.deep_view().len(),
            |i: int| cell_at(rows.deep_view()[i], c as int),
        ),
{
    let ghost rv = rows.deep_view();
    let pick = |i: usize| -> (v: Value)
        requires
            i < rows@.len(),
        ensures
            v.deep_view() == cell_at(rows@[i as int].deep_view(), c as int),
        { copy_cell(&rows[i], c) };
    let ghost g = |i: int| cell_at(rv[i], c as int);
    assert(rv.len() == rows@.len());
    assert forall|i: usize| i < rows@.len() implies rv[i as int] == (#[trigger] rows@[
        i as int
    ]).deep_view() by {}
    let out = tabulate(rows.len(), &pick, Ghost(g));
    assert(out.deep_view() =~= Seq::new(rv.len(), |i: int| cell_at(rv[i], c as int)));
    out
}

pub fn op_sheet_transpose(rows: &Rows) -> (r: Rows)
    ensures
        r.deep_view() == transposed(rows.deep_view()),
{
    let ghost rv = rows.deep_view();
    assert(rv.len() == rows@.len());
    let n: usize = count_columns(rows);
    let make = |c: usize| -> (row: Vec<Value>)
        ensures
            row.deep_view() == Seq::new(
                rows.deep_view().len(),
                |i: int| cell_at(rows.deep_view()[i], c as int),
            ),
        { make_column(rows, c) };
    let ghost g = |c: int| Seq::new(rv.len(), |r: int| cell_at(rv[r], c));
    assert forall|c: usize, t: Vec<Value>|
        c < n && #[trigger] make.ensures((c,), t) implies t.deep_view() == g(c as int) by {
        assert(t.deep_view() =~= g(c as int));
    }
    let out = tabulate(n, &make, Ghost(g));
    assert(out.deep_view() =~= transposed(rv));
    out
}

proof fn lemma_widest_all(rows: RowsView, w: nat, n: nat)
    requires
        0 < n <= rows.len(),
        forall|i: int| 0 <= i < rows.len() ==> (#[trigger] rows[i]).len() == w,
    ensures
        widest(rows, n) == w,
    decreases n,
{
    if n > 1 {
        lemma_widest_all(rows, w, (n - 1) as nat);
    }
    assert(rows[n - 1].len() == w);
    assert(widest(rows, 0) == 0);
    assert(widest(rows, (n - 1) as nat) == if n > 1 { w } else { 0 });
}

/// Exchanging rows and columns twice gives a sheet back whose rows have one length
/// that is not zero.
pub proof fn transposing_twice_gives_back(rows: RowsView, w: nat)
    requires
        w > 0,
        forall|i: int| 0 <= i < rows.len() ==> (#[trigger] rows[i]).len() == w,
    ensures
        transposed(transposed(rows)) == rows,
{
    if rows.len() == 0 {
        assert(widest(rows, 0) == 0);
        assert(transposed(rows).len() == 0);
        assert(widest(transposed(rows), 0) == 0);
        assert(transposed(transposed(rows)) =~= rows);
    } else {
        lemma_widest_all(rows, w, rows.len());
        let t = transposed(rows);
        assert forall|i: int| 0 <= i < t.len() implies (#[trigger] t[i]).len() == rows.len() by {}
        lemma_widest_all(t, rows.len(), t.len());
        let back = transposed(t);
        assert forall|i: int| 0 <= i < rows.len() implies back[i] == rows[i] by {
            assert forall|c: int| 0 <= c < w implies back[i][c] == rows[i][c] by {
                assert(t[c][i] == cell_at(rows[i], c));
            }
            assert(back[i] =~= rows[i]);
        }
        assert(back =~= rows);
    }
}

// ── texts replaced ──────────────────────────────────────────────────────────

/// The text from `i` on with each occurrence of `pat` replaced; occurrences are looked
/// up in `low`, which has the same length.
pub open spec fn replaced_in(
    s: Seq<char>,
    low: Seq<char>,
    pat: Seq<char>,
    rep: Seq<char>,
    i: int,
) -> Seq<char>
    decreases s.len() - i,
{
    match find_from(low, pat, i) {
        Some(p) => if 0 <= i <= p && p + pat.len() <= s.len() && pat.len() > 0 {
            s.subrange(i, p) + rep + replaced_in(s, low, pat, rep, p + pat.len())
        } else {
            Seq::empty()
        },
        None => s.subrange(i, s.len() as int),
    }
}

/// How many occurrences of `pat` there are from `i` on, one after the other.
pub open spec fn occurrences(low: Seq<char>, pat: Seq<char>, i: int) -> nat
    decreases low.len() - i,
{
    match find_from(low, pat, i) {
        Some(p) => if 0 <= i <= p && p + pat.len() <= low.len() && pat.len() > 0 {
            1 + occurrences(low, pat, p + pat.len())
        } else {
            0
        },
        None => 0,
    }
}

fn replace_in(s: &str, low: &str, pat: &str, rep: &str) -> (r: (String, usize))
    requires
        pat@.len() > 0,
        low@.len() == s@.len(),
    ensures
        r.0@ == replaced_in(s@, low@, pat@, rep@, 0),
        r.1 == occurrences(low@, pat@, 0),
{
    let cs = chars_of(s);
    let ls = chars_of(low);
    let ps = chars_of(pat);
    let total: usize = cs.len();
    let mut out = String::new();
    let mut n: usize = 0;
    let mut i: usize = 0;
    let ghost all = replaced_in(s@, low@, pat@, rep@, 0);
    let ghost count = occurrences(low@, pat@, 0);
    assert(out@ + all =~= all);
    loop
        invariant_except_break
            i <= cs@.len(),
            total == cs@.len(),
            cs@ == s@,
            ls@ == low@,
            ps@ == pat@,
            pat@.len() > 0,
            low@.len() == s@.len(),
            n <= i,
            out@ + replaced_in(s@, low@, pat@, rep@, i as int) == all,
            n + occurrences(low@, pat@, i as int) == count,
        ensures
            out@ == all,
            n == count,
        decreases cs@.len() - i,
    {
        let ghost before = out@;
        match find_text(&ls, &ps, i) {
            Some(p) => {
                assert(p + ps@.len() <= total);
                push_chars(&mut out, &cs, i, p);
                out.push_str(rep);
                assert(out@ + replaced_in(s@, low@, pat@, rep@, p + pat@.len()) =~= before + (
                s@.subrange(i as int, p as int) + rep@ + replaced_in(
                    s@,
                    low@,
                    pat@,
                    rep@,
                    p + pat@.len(),
                )));
                n = n + 1;
                i = p + ps.len();
            },
            None => {
                push_chars(&mut out, &cs, i, cs.len());
                break;
            },
        }
    }
    (out, n)
}

/// Replaces a text without regard to ASCII case; says how often.
pub fn ascii_ci_replace(hay: &str, find: &str, rep: &str) -> (r: (String, usize))
    requires
        find@.len() > 0,
    ensures
        r.0@ == replaced_in(hay@, lower(hay@), lower(find@), rep@, 0),
        r.1 == occurrences(lower(hay@), lower(find@), 0),
{
    let low = ascii_lower(hay);
    let pat = ascii_lower(find);
    replace_in(hay, low.as_str(), pat.as_str(), rep)
}

/// What is replaced by what.
pub struct Replacement {
    pub find: String,
    pub rep: String,
    pub ignore_case: bool,
    pub whole: bool,
}

pub open spec fn seen_as(s: Seq<char>, ignore_case: bool) -> Seq<char> {
    if ignore_case {
        lower(s)
    } else {
        s
    }
}

/// A text after a replacement, and how many times it was made.
pub open spec fn after_replacement(s: Seq<char>, r: Replacement) -> (Seq<char>, nat) {
    let low = seen_as(s, r.ignore_case);
    let pat = seen_as(r.find@, r.ignore_case);
    if r.whole {
        if low == pat {
            (r.rep@, 1)
        } else {
            (s, 0)
        }
    } else {
        (replaced_in(s, low, pat, r.rep@, 0), occurrences(low, pat, 0))
    }
}

fn replace_in_text(s: &str, r: &Replacement) -> (o: (String, usize))
    requires
        r.find@.len() > 0,
    ensures
        (o.0@, o.1 as nat) == after_replacement(s@, *r),
{
    if r.whole {
        let hit = if r.ignore_case {
            same(ascii_lower(s).as_str(), ascii_lower(r.find.as_str()).as_str())
        } else {
            same(s, r.find.as_str())
        };
        if hit {
            (r.rep.clone(), 1)
        } else {
            (copy_text(s), 0)
        }
    } else if r.ignore_case {
        ascii_ci_replace(s, r.find.as_str(), r.rep.as_str())
    } else {
        replace_in(s, s, r.find.as_str(), r.rep.as_str())
    }
}

/// A cell after a replacement: only texts are touched.
pub open spec fn cell_after(j: Json, r: Replacement) -> (Json, nat) {
    match j {
        Json::Text(s) => (Json::Text(after_replacement(s, r).0), after_replacement(s, r).1),
        _ => (j, 0),
    }
}

/// Whether column `c` is looked at.
pub open spec fn is_open_column(only: Option<usize>, c: int) -> bool {
    match only {
        Some(k) => k == c,
        None => true,
    }
}

/// A row after a replacement.
pub open spec fn row_after(row: Seq<Json>, only: Option<usize>, r: Replacement) -> Seq<Json> {
    Seq::new(
        row.len(),
        |c: int|
            if is_open_column(only, c) {
                cell_after(row[c], r).0
            } else {
                row[c]
            },
    )
}

/// How many replacements are made in the first `n` cells of a row.
pub open spec fn row_hits(row: Seq<Json>, only: Option<usize>, r: Replacement, n: nat) -> nat
    decreases n,
{
    if n == 0 || n > row.len() {
        0
    } else {
        row_hits(row, only, r, (n - 1) as nat) + if is_open_column(only, n - 1) {
            cell_after(row[n - 1], r).1
        } else {
            0
        }
    }
}

/// A sheet after a replacement in its data rows.
pub open spec fn rows_after(
    rows: RowsView,
    start: int,
    only: Option<usize>,
    r: Replacement,
) -> RowsView {
    Seq::new(
        rows.len(),
        |i: int|
            if i < start {
                rows[i]
            } else {
                row_after(rows[i], only, r)
            },
    )
}

/// How many replacements are made in the rows from `start` up to `n`.
pub open spec fn replacements(
    rows: RowsView,
    start: int,
    only: Option<usize>,
    r: Replacement,
    n: int,
) -> nat
    decreases n - start,
{
    if n <= start || n > rows.len() {
        0
    } else {
        replacements(rows, start, only, r, n - 1) + row_hits(
            rows[n - 1],
            only,
            r,
            rows[n - 1].len(),
        )
    }
}

fn replace_in_row(
    row: &Vec<Value>,
    only: Option<usize>,
    r: &Replacement,
    count: u64,
    Ghost(so_far): Ghost<nat>,
) -> (o: (Vec<Value>, u64))
    requires
        r.find@.len() > 0,
        count == in_64_bits(so_far),
    ensures
        o.0.deep_view() == row_after(row.deep_view(), only, *r),
        o.1 == in_64_bits(so_far + row_hits(row.deep_view(), only, *r, row@.len())),
{
    let ghost rv = row.deep_view();
    let ghost all = row_after(rv, only, *r);
    let mut out: Vec<Value> = Vec::new();
    let mut n: u64 = count;
    let mut c: usize = 0;
    assert(rv.len() == row@.len());
    while c < row.len()
        invariant
            c <= row@.len(),
            rv == row.deep_view(),
            rv.len() == row@.len(),
            all == row_after(rv, only, *r),
            r.find@.len() > 0,
            out.deep_view() == all.take(c as int),
            n == in_64_bits(so_far + row_hits(rv, only, *r, c as nat)),
        decreases row@.len() - c,
    {
        assert(rv[c as int] == row@[c as int].deep_view());
        let open_here = match only {
            Some(k) => k == c,
            None => true,
        };
        let cell = &row[c];
        if open_here {
            match cell {
                Value::Text(s) => {
                    let (t, k) = replace_in_text(s.as_str(), r);
                    n = add_count(
                        n,
                        k as u64,
                        Ghost((so_far + row_hits(rv, only, *r, c as nat)) as nat),
                        Ghost(k as nat),
                    );
                    push_deep(&mut out, Value::Text(t));
                },
                _ => {
                    push_deep(&mut out, cell.dup());
                },
            }
        } else {
            push_deep(&mut out, cell.dup());
        }
        c = c + 1;
        assert(out.deep_view() =~= all.take(c as int));
    }
    assert(all.take(c as int) =~= all);
    (out, n)
}

/// Replaces texts in the data rows of a sheet, in one column or in all; says how often.
pub fn op_sheet_replace(rows: &Rows, header: bool, only: Option<usize>, r: &Replacement) -> (o: (
    Rows,
    u64,
))
    requires
        r.find@.len() > 0,
    ensures
        ({
            let rv = rows.deep_view();
            let start = data_start(header, rv);
            &&& o.0.deep_view() == rows_after(rv, start, only, *r)
            &&& o.1 == in_64_bits(replacements(rv, start, only, *r, rv.len() as int))
        }),
{
    let start = first_data_row(header, rows);
    let ghost rv = rows.deep_view();
    let ghost all = rows_after(rv, start as int, only, *r);
    let mut out: Rows = Vec::new();
    let mut n: u64 = 0;
    let mut i: usize = 0;
    assert(rv.len() == rows@.len());
    while i < rows.len()
        invariant
            i <= rows@.len(),
            rv == rows.deep_view(),
            rv.len() == rows@.len(),
            r.find@.len() > 0,
            0 <= start <= rv.len(),
            all == rows_after(rv, start as int, only, *r),
            out.deep_view() == all.take(i as int),
            n == in_64_bits(replacements(rv, start as int, only, *r, i as int)),
        decreases rows@.len() - i,
    {
        assert(rv[i as int] == rows@[i as int].deep_view());
        if i < start {
            push_deep(&mut out, copy_values(&rows[i]));
        } else {
            let (row, k) = replace_in_row(
                &rows[i],
                only,
                r,
                n,
                Ghost(replacements(rv, start as int, only, *r, i as int)),
            );
            n = k;
            push_deep(&mut out, row);
        }
        i = i + 1;
        assert(out.deep_view() =~= all.take(i as int));
    }
    assert(all.take(i as int) =~= all);
    (out, n)
}

// ── what reshaping does ─────────────────────────────────────────────────────

/// What a column is called where it is spread out: its header text, or `Col` and its number
/// where that is missing or empty.
pub open spec fn called(header: bool, rows: RowsView, c: int) -> Seq<char> {
    if header && rows.len() > 0 && c < rows[0].len() && cell_text(rows[0][c]) != ""@ {
        cell_text(rows[0][c])
    } else {
        "Col"@ + decimal((c + 1) as nat)
    }
}

proof fn lemma_called(header: bool, rows: RowsView, c: int)
    requires
        0 <= c < u64::MAX,
    ensures
        checked_name(header, rows, c) == called(header, rows, c),
{
    reveal_strlit("");
    if header && rows.len() > 0 && c < rows[0].len() {
        assert(cell_text(rows[0][c]).len() == 0 <==> cell_text(rows[0][c]) =~= ""@);
    }
}

proof fn lemma_melted(
    rows: RowsView,
    header: bool,
    ids: Seq<usize>,
    vals: Seq<usize>,
    n: int,
    i: int,
    k: int,
)
    requires
        below_header(header, rows) <= n <= rows.len(),
        below_header(header, rows) <= i < n,
        0 <= k < vals.len(),
    ensures
        melted_data(rows, header, ids, vals, n).len() == (n - below_header(header, rows))
            * vals.len(),
        0 <= (i - below_header(header, rows)) * vals.len() + k < melted_data(
            rows,
            header,
            ids,
            vals,
            n,
        ).len(),
        melted_data(rows, header, ids, vals, n)[(i - below_header(header, rows)) * vals.len() + k]
            == melted_row(rows, header, ids, vals, i)[k],
    decreases n,
{
    let start = below_header(header, rows);
    let m = vals.len() as int;
    lemma_melted_len(rows, header, ids, vals, n);
    lemma_melted_len(rows, header, ids, vals, n - 1);
    let before = melted_data(rows, header, ids, vals, n - 1);
    assert((n - start) * m == (n - 1 - start) * m + m) by (nonlinear_arith);
    if i == n - 1 {
        assert(before.len() == (i - start) * m);
    } else {
        lemma_melted(rows, header, ids, vals, n - 1, i, k);
    }
}

proof fn lemma_melted_len(
    rows: RowsView,
    header: bool,
    ids: Seq<usize>,
    vals: Seq<usize>,
    n: int,
)
    requires
        below_header(header, rows) <= n <= rows.len(),
    ensures
        melted_data(rows, header, ids, vals, n).len() == (n - below_header(header, rows))
            * vals.len(),
    decreases n,
{
    let start = below_header(header, rows);
    let m = vals.len() as int;
    if n > start {
        lemma_melted_len(rows, header, ids, vals, n - 1);
        assert((n - start) * m == (n - 1 - start) * m + m) by (nonlinear_arith);
    } else {
        assert((n - start) * m == 0) by (nonlinear_arith)
            requires
                n - start == 0,
        ;
    }
}

/// A sheet in long form has a row for each data row and each column that is spread out, in
/// order: the identifying cells, the name of the column, and the cell that stood there.
pub proof fn long_forms_have_each_cell(
    rows: RowsView,
    header: bool,
    ids: Seq<usize>,
    vals: Seq<usize>,
    var_name: Seq<char>,
    value_name: Seq<char>,
    i: int,
    k: int,
)
    requires
        below_header(header, rows) <= i < rows.len(),
        0 <= k < vals.len(),
        vals[k] < u64::MAX,
        forall|j: int| 0 <= j < ids.len() ==> (#[trigger] ids[j]) < u64::MAX,
    ensures
        ({
            let start = below_header(header, rows);
            let out = melted(rows, header, ids, vals, var_name, value_name);
            let row = out[1 + (i - start) * vals.len() + k];
            let n = ids.len() as int;
            &&& out.len() == 1 + (rows.len() - start) * vals.len()
            &&& out[0].len() == n + 2
            &&& forall|j: int|
                0 <= j < n ==> out[0][j] == Json::Text(
                    called(header, rows, (#[trigger] ids[j]) as int),
                )
            &&& out[0][n] == Json::Text(var_name)
            &&& out[0][n + 1] == Json::Text(value_name)
            &&& row.len() == n + 2
            &&& forall|j: int| 0 <= j < n ==> row[j] == held_in(rows, i, (#[trigger] ids[j]) as int)
            &&& row[n] == Json::Text(called(header, rows, vals[k] as int))
            &&& row[n + 1] == held_in(rows, i, vals[k] as int)
        }),
{
    let start = below_header(header, rows);
    lemma_melted(rows, header, ids, vals, rows.len() as int, i, k);
    let out = melted(rows, header, ids, vals, var_name, value_name);
    let data = melted_data(rows, header, ids, vals, rows.len() as int);
    let at = (i - start) * vals.len() + k;
    assert(out[1 + at] == data[at]);
    lemma_called(header, rows, vals[k] as int);
    assert forall|j: int| 0 <= j < ids.len() implies out[0][j] == Json::Text(
        called(header, rows, (#[trigger] ids[j]) as int),
    ) by {
        lemma_called(header, rows, ids[j] as int);
    }
    assert(out[1 + (i - start) * vals.len() + k] == data[at]);
}

/// A sheet with chosen columns has in each row just the cells of these columns, in the order
/// in which they are listed.
pub proof fn chosen_columns_come_as_listed(rows: RowsView, cols: Seq<usize>, i: int, k: int)
    requires
        0 <= i < rows.len(),
        0 <= k < cols.len(),
    ensures
        selected(rows, cols).len() == rows.len(),
        selected(rows, cols)[i].len() == cols.len(),
        selected(rows, cols)[i][k] == held_in(rows, i, cols[k] as int),
{
}

/// What is left when columns are dropped is each column that is not listed, from the left to
/// the right.
pub proof fn dropping_leaves_the_others(cols: Seq<usize>, n: nat)
    requires
        n <= usize::MAX,
    ensures
        forall|i: int, j: int|
            0 <= i < j < unlisted(cols, n).len() ==> (#[trigger] unlisted(cols, n)[i]) < (
            #[trigger] unlisted(cols, n)[j]),
        forall|i: int|
            0 <= i < unlisted(cols, n).len() ==> (#[trigger] unlisted(cols, n)[i]) < n
                && !cols.contains(unlisted(cols, n)[i]),
        forall|c: usize|
            c < n ==> (#[trigger] unlisted(cols, n).contains(c) <==> !cols.contains(c)),
    decreases n,
{
    if n > 0 {
        dropping_leaves_the_others(cols, (n - 1) as nat);
        let before = unlisted(cols, (n - 1) as nat);
        let now = unlisted(cols, n);
        assert forall|c: usize| c < n implies (#[trigger] now.contains(c) <==> !cols.contains(
            c,
        )) by {
            if c < n - 1 {
                assert(before.contains(c) <==> !cols.contains(c));
                if before.contains(c) {
                    let i = choose|i: int| 0 <= i < before.len() && before[i] == c;
                    assert(now[i] == c);
                }
                if now.contains(c) {
                    let i = choose|i: int| 0 <= i < now.len() && now[i] == c;
                    assert(i < before.len());
                    assert(before[i] == c);
                }
            } else if !cols.contains(c) {
                assert(now[before.len() as int] == c);
            } else if now.contains(c) {
                let i = choose|i: int| 0 <= i < now.len() && now[i] == c;
                assert(before[i] == c);
            }
        }
    }
}

/// Exchanging rows and columns puts the cell of a row and a column into that column and row;
/// no row of the sheet is longer than what comes out is high.
pub proof fn exchanging_moves_each_cell(rows: RowsView, r: int, c: int)
    requires
        0 <= r < rows.len(),
        0 <= c < transposed(rows).len(),
    ensures
        transposed(rows)[c].len() == rows.len(),
        transposed(rows)[c][r] == held_in(rows, r, c),
        rows[r].len() <= transposed(rows).len(),
        exists|k: int| 0 <= k < rows.len() && (#[trigger] rows[k]).len() == transposed(rows).len(),
{
    lemma_widest_is_there(rows, rows.len());
    assert(rows[r].len() <= widest(rows, rows.len()));
}

proof fn lemma_widest_is_there(rows: RowsView, n: nat)
    requires
        n <= rows.len(),
    ensures
        forall|k: int| 0 <= k < n ==> (#[trigger] rows[k]).len() <= widest(rows, n),
        widest(rows, n) > 0 ==> exists|k: int|
            0 <= k < n && (#[trigger] rows[k]).len() == widest(rows, n),
    decreases n,
{
    if n > 0 {
        lemma_widest_is_there(rows, (n - 1) as nat);
        if rows[n - 1].len() == widest(rows, n) {
            assert(rows[n - 1].len() == widest(rows, n));
        } else if widest(rows, n) > 0 {
            let k = choose|k: int|
                0 <= k < n - 1 && (#[trigger] rows[k]).len() == widest(rows, (n - 1) as nat);
            assert(rows[k].len() == widest(rows, n));
        }
    }
}

proof fn lemma_terms(nums: Seq<Seq<Option<u64>>>, start: int, c: int, n: int)
    requires
        0 <= start <= n,
    ensures
        column_sum_terms(nums, start, c, n) == Seq::new(
            (n - start) as nat,
            |i: int| number_at(nums, start + i, c),
        ).filter(|x: Option<u64>| x is Some).map_values(|x: Option<u64>| x->0),
    decreases n - start,
{
    reveal(Seq::filter);
    let is_number = |x: Option<u64>| x is Some;
    let get = |x: Option<u64>| x->0;
    let all = Seq::new((n - start) as nat, |i: int| number_at(nums, start + i, c));
    if n > start {
        lemma_terms(nums, start, c, n - 1);
        let front = Seq::new((n - 1 - start) as nat, |i: int| number_at(nums, start + i, c));
        assert(all.drop_last() =~= front);
        assert(all.last() == number_at(nums, n - 1, c));
        if is_number(all.last()) {
            assert(all.filter(is_number).map_values(get) =~= front.filter(is_number).map_values(
                get,
            ).push(get(all.last())));
        }
    } else {
        assert(all.filter(is_number).map_values(get) =~= Seq::<u64>::empty());
    }
}

/// The total of a column adds up the numbers that its data rows have, in order; the row of
/// totals has the label in its first cell, and in each other one the sum of a column with
/// numbers or an empty text.
pub proof fn totals_add_up_their_columns(
    rows: RowsView,
    nums: Seq<Seq<Option<u64>>>,
    header: bool,
    label: Seq<char>,
    sums: Seq<Json>,
    c: int,
)
    requires
        0 <= c < total_terms(rows, nums, header).len(),
    ensures
        ({
            let start = below_header(header, rows);
            let terms = total_terms(rows, nums, header);
            let row = total_row(label, terms, sums);
            &&& terms[c] == Seq::new(
                (rows.len() - start) as nat,
                |i: int| number_at(nums, start + i, c),
            ).filter(|x: Option<u64>| x is Some).map_values(|x: Option<u64>| x->0)
            &&& row.len() == terms.len()
            &&& row[0] == Json::Text(label)
            &&& c > 0 && terms[c].len() > 0 ==> row[c] == (if c < sums.len() {
                sums[c]
            } else {
                Json::Null
            })
            &&& c > 0 && terms[c].len() == 0 ==> row[c] == Json::Text(Seq::empty())
        }),
{
    lemma_terms(nums, below_header(header, rows), c, rows.len() as int);
}

/// The texts that a row shows in listed columns.
pub open spec fn texts_in(row: Seq<Json>, cols: Seq<usize>) -> Seq<Seq<char>> {
    Seq::new(cols.len(), |k: int| shown_in(seq![row], 0, cols[k] as int))
}

proof fn lemma_listed(row: Seq<Json>, cols: Seq<usize>, skip: bool, n: nat)
    requires
        n <= cols.len(),
    ensures
        listed_texts(row, cols, skip, n) == texts_in(row, cols).take(n as int).filter(
            |t: Seq<char>| !(skip && forall|i: int| 0 <= i < t.len() ==> is_space(#[trigger] t[i])),
        ),
    decreases n,
{
    reveal(Seq::filter);
    let keep = |t: Seq<char>|
        !(skip && forall|i: int| 0 <= i < t.len() ==> is_space(#[trigger] t[i]));
    let part = texts_in(row, cols).take(n as int);
    if n > 0 {
        lemma_listed(row, cols, skip, (n - 1) as nat);
        assert(part.drop_last() =~= texts_in(row, cols).take(n - 1));
        let t = texts_in(row, cols)[n - 1];
        assert(part.last() == t);
        lemma_trimmed_away(t);
    } else {
        assert(part.filter(keep) =~= Seq::<Seq<char>>::empty());
    }
}

/// Joined columns show in each data row the texts of these columns with the separator between
/// them, without blank ones where these are left out; the new cell stands at the end, or in
/// place of the leftmost of them, and the other cells keep their order.
pub proof fn joined_columns_show_their_texts(
    rows: RowsView,
    header: bool,
    cols: Seq<usize>,
    j: Joining,
    i: int,
)
    requires
        0 <= i < rows.len(),
        cols.len() > 0,
    ensures
        ({
            let out = joined_row(rows, data_start(header, rows), cols, j, i);
            let cell = Json::Text(
                if i < below_header(header, rows) {
                    j.into@
                } else {
                    join(
                        texts_in(rows[i], cols).filter(
                            |t: Seq<char>|
                                !(j.skip_blanks && forall|i: int|
                                    0 <= i < t.len() ==> is_space(#[trigger] t[i])),
                        ),
                        j.sep@,
                    )
                },
            );
            &&& j.keep ==> out == rows[i].push(cell)
            &&& !j.keep ==> exists|at: Seq<int>| #[trigger]
                goes_down(at) && out.len() == at.len() && forall|k: int|
                    0 <= k < at.len() ==> 0 <= #[trigger] at[k] < rows[i].len() && if is_least(
                        cols,
                        at[k],
                    ) {
                        out[k] == cell
                    } else {
                        !cols.contains(at[k] as usize) && out[k] == rows[i][at[k]]
                    }
        }),
{
    lemma_listed(rows[i], cols, j.skip_blanks, cols.len());
    assert(texts_in(rows[i], cols).take(cols.len() as int) =~= texts_in(rows[i], cols));
    let cell = Json::Text(
        if i < below_header(header, rows) {
            j.into@
        } else {
            join(listed_texts(rows[i], cols, j.skip_blanks, cols.len()), j.sep@)
        },
    );
    if !j.keep {
        lemma_leftmost(cols, cols.len());
        let at = lemma_merged(
            rows[i],
            cols,
            leftmost(cols, cols.len()) as int,
            cell,
            rows[i].len(),
        );
        assert(goes_down(at));
    }
}

/// Whether a column is the leftmost of some.
pub open spec fn is_least(cols: Seq<usize>, c: int) -> bool {
    (exists|k: int| 0 <= k < cols.len() && cols[k] == c) && forall|k: int|
        0 <= k < cols.len() ==> c <= #[trigger] cols[k]
}

proof fn lemma_leftmost(cols: Seq<usize>, n: nat)
    requires
        0 < n <= cols.len(),
    ensures
        exists|k: int| 0 <= k < n && cols[k] == leftmost(cols, n),
        forall|k: int| 0 <= k < n ==> leftmost(cols, n) <= #[trigger] cols[k],
    decreases n,
{
    if n > 1 {
        lemma_leftmost(cols, (n - 1) as nat);
        if cols[n - 1] < leftmost(cols, (n - 1) as nat) {
            assert(cols[n - 1] == leftmost(cols, n));
        } else {
            let k = choose|k: int|
                0 <= k < n - 1 && cols[k] == leftmost(cols, (n - 1) as nat);
            assert(cols[k] == leftmost(cols, n));
        }
    } else {
        assert(cols[0] == leftmost(cols, n));
    }
}

proof fn lemma_merged(row: Seq<Json>, cols: Seq<usize>, least: int, cell: Json, n: nat) -> (at:
    Seq<int>)
    requires
        n <= row.len(),
        is_least(cols, least),
    ensures
        goes_down(at),
        merged_cells(row, cols, least, cell, n).len() == at.len(),
        forall|k: int|
            0 <= k < at.len() ==> 0 <= #[trigger] at[k] < n && if is_least(cols, at[k]) {
                merged_cells(row, cols, least, cell, n)[k] == cell
            } else {
                !cols.contains(at[k] as usize) && merged_cells(row, cols, least, cell, n)[k]
                    == row[at[k]]
            },
    decreases n,
{
    if n == 0 {
        Seq::empty()
    } else {
        let before = lemma_merged(row, cols, least, cell, (n - 1) as nat);
        let was = merged_cells(row, cols, least, cell, (n - 1) as nat);
        let now = merged_cells(row, cols, least, cell, n);
        if n - 1 == least || !cols.contains((n - 1) as usize) {
            let at = before.push(n - 1);
            assert forall|k: int| 0 <= k < at.len() implies 0 <= #[trigger] at[k] < n
                && if is_least(cols, at[k]) {
                now[k] == cell
            } else {
                !cols.contains(at[k] as usize) && now[k] == row[at[k]]
            } by {
                if k < before.len() {
                    assert(at[k] == before[k]);
                    assert(now[k] == was[k]);
                } else if n - 1 != least && is_least(cols, n - 1) {
                    let q = choose|q: int| 0 <= q < cols.len() && cols[q] == n - 1;
                    assert(cols[q] == (n - 1) as usize);
                }
            }
            at
        } else {
            before
        }
    }
}

/// A split column gives each data row the parts of its cell in new columns, with empty texts
/// where there are fewer, in place of the column or behind it; the cells around stay.
pub proof fn split_columns_hold_the_parts(
    rows: RowsView,
    header: bool,
    c: int,
    s: Splitting,
    into: Option<Seq<Seq<char>>>,
    i: int,
)
    requires
        0 <= i < rows.len(),
        0 <= c < rows[i].len(),
    ensures
        ({
            let names = split_names(rows, header, c, s, into);
            let out = split_rows(rows, header, c, s, into);
            let at: int = if s.keep {
                c + 1
            } else {
                c
            };
            let parts = cell_parts(shown_in(rows, i, c), s.sep@, s.max, s.trimmed);
            &&& into is Some ==> names == into->0
            &&& out.len() == rows.len()
            &&& out[i].len() == rows[i].len() - 1 + (at - c) + names.len()
            &&& forall|k: int| 0 <= k < at ==> #[trigger] out[i][k] == rows[i][k]
            &&& forall|k: int|
                0 <= k < names.len() ==> #[trigger] out[i][at + k] == Json::Text(
                    if i < below_header(header, rows) {
                        names[k]
                    } else if k < parts.len() {
                        parts[k]
                    } else {
                        Seq::empty()
                    },
                )
            &&& forall|k: int|
                c < k < rows[i].len() ==> out[i][at + names.len() + k - c - 1]
                    == #[trigger] rows[i][k]
        }),
{
}

/// The parts of a cell make its text again with the separator between them; there are no more
/// of them than are asked for, and but for the last none holds the separator.
pub proof fn limited_parts_make_the_text_again(s: Seq<char>, sep: Seq<char>, i: int, m: nat)
    requires
        sep.len() > 0,
        0 <= i <= s.len(),
        m >= 1,
    ensures
        1 <= limited_pieces(s, sep, i, m).len() <= m,
        join(limited_pieces(s, sep, i, m), sep) == s.subrange(i, s.len() as int),
        forall|k: int|
            0 <= k < limited_pieces(s, sep, i, m).len() - 1 ==> !occurs_in(
                sep,
                #[trigger] limited_pieces(s, sep, i, m)[k],
            ),
        limited_pieces(s, sep, i, m).len() < m ==> !occurs_in(
            sep,
            limited_pieces(s, sep, i, m).last(),
        ),
    decreases m,
{
    texts_are_found_first(s, sep, i);
    let all = limited_pieces(s, sep, i, m);
    if m > 1 {
        match find_from(s, sep, i) {
            Some(p) => {
                let q = p + sep.len() as int;
                let rest = limited_pieces(s, sep, q, (m - 1) as nat);
                limited_parts_make_the_text_again(s, sep, q, (m - 1) as nat);
                let first = s.subrange(i, p);
                assert(all.drop_first() =~= rest);
                lemma_join_front(all, sep);
                assert(first + sep + s.subrange(q, s.len() as int) =~= s.subrange(
                    i,
                    s.len() as int,
                ));
                assert(!occurs_in(sep, first)) by {
                    if occurs_in(sep, first) {
                        let k = choose|k: int|
                            #![trigger first.subrange(k, k + sep.len())]
                            0 <= k && k + sep.len() <= first.len() && first.subrange(
                                k,
                                k + sep.len(),
                            ) == sep;
                        assert(s.subrange(i + k, i + k + sep.len()) =~= first.subrange(
                            k,
                            k + sep.len(),
                        ));
                    }
                }
                assert forall|k: int| 0 <= k < all.len() - 1 implies !occurs_in(
                    sep,
                    #[trigger] all[k],
                ) by {
                    if k > 0 {
                        assert(all[k] == rest[k - 1]);
                    }
                }
                assert(all.last() == rest.last());
            },
            None => {
                let last = s.subrange(i, s.len() as int);
                if occurs_in(sep, last) {
                    let k = choose|k: int|
                        #![trigger last.subrange(k, k + sep.len())]
                        0 <= k && k + sep.len() <= last.len() && last.subrange(k, k + sep.len())
                            == sep;
                    assert(s.subrange(i + k, i + k + sep.len()) =~= last.subrange(
                        k,
                        k + sep.len(),
                    ));
                }
            },
        }
    }
}

// ── what replacing does ─────────────────────────────────────────────────────

/// Parts with other texts between them.
pub open spec fn interleaved(parts: Seq<Seq<char>>, hits: Seq<Seq<char>>) -> Seq<char>
    decreases parts.len(),
{
    if parts.len() == 0 {
        Seq::empty()
    } else if parts.len() == 1 || hits.len() == 0 {
        parts[0]
    } else {
        parts[0] + hits[0] + interleaved(parts.drop_first(), hits.drop_first())
    }
}

proof fn lemma_cut(
    s: Seq<char>,
    fold: bool,
    pat: Seq<char>,
    rep: Seq<char>,
    i: int,
) -> (cut: (Seq<Seq<char>>, Seq<Seq<char>>))
    requires
        pat.len() > 0,
        0 <= i <= s.len(),
    ensures
        ({
            let low = seen_as(s, fold);
            let (parts, hits) = cut;
            &&& parts.len() == hits.len() + 1
            &&& hits.len() == occurrences(low, pat, i)
            &&& interleaved(parts, hits) == s.subrange(i, s.len() as int)
            &&& replaced_in(s, low, pat, rep, i) == join(parts, rep)
            &&& forall|k: int| 0 <= k < hits.len() ==> seen_as(#[trigger] hits[k], fold) == pat
            &&& forall|k: int|
                0 <= k < parts.len() ==> !occurs_in(pat, seen_as(#[trigger] parts[k], fold))
        }),
    decreases s.len() - i,
{
    let low = seen_as(s, fold);
    assert(low.len() == s.len());
    texts_are_found_first(low, pat, i);
    match find_from(low, pat, i) {
        Some(p) => {
            let q = p + pat.len() as int;
            let (parts, hits) = lemma_cut(s, fold, pat, rep, q);
            let first = s.subrange(i, p);
            let hit = s.subrange(p, q);
            assert(seen_as(hit, fold) =~= low.subrange(p, q));
            assert(seen_as(first, fold) =~= low.subrange(i, p));
            let f = seen_as(first, fold);
            assert(!occurs_in(pat, f)) by {
                if occurs_in(pat, f) {
                    let k = choose|k: int|
                        #![trigger f.subrange(k, k + pat.len())]
                        0 <= k && k + pat.len() <= f.len() && f.subrange(k, k + pat.len()) == pat;
                    assert(low.subrange(i + k, i + k + pat.len()) =~= f.subrange(
                        k,
                        k + pat.len(),
                    ));
                }
            }
            let all = seq![first] + parts;
            let found = seq![hit] + hits;
            assert(all.drop_first() =~= parts);
            assert(found.drop_first() =~= hits);
            lemma_join_front(all, rep);
            assert(first + hit + s.subrange(q, s.len() as int) =~= s.subrange(i, s.len() as int));
            assert(s.subrange(i, p) + rep + join(parts, rep) =~= join(all, rep));
            assert forall|k: int| 0 <= k < all.len() implies !occurs_in(
                pat,
                seen_as(#[trigger] all[k], fold),
            ) by {
                if k > 0 {
                    assert(all[k] == parts[k - 1]);
                }
            }
            assert forall|k: int| 0 <= k < found.len() implies seen_as(
                #[trigger] found[k],
                fold,
            ) == pat by {
                if k > 0 {
                    assert(found[k] == hits[k - 1]);
                }
            }
            (all, found)
        },
        None => {
            let last = s.subrange(i, s.len() as int);
            assert(seen_as(last, fold) =~= low.subrange(i, s.len() as int));
            let f = seen_as(last, fold);
            if occurs_in(pat, f) {
                let k = choose|k: int|
                    #![trigger f.subrange(k, k + pat.len())]
                    0 <= k && k + pat.len() <= f.len() && f.subrange(k, k + pat.len()) == pat;
                assert(low.subrange(i + k, i + k + pat.len()) =~= f.subrange(k, k + pat.len()));
            }
            (seq![last], Seq::empty())
        },
    }
}

/// Replacing in a text takes each place where the text that is looked for stands, one after
/// the other, for the new one, and counts them; between these places nothing changes, and
/// nothing is left to be found. A whole text is replaced where it is the one looked for.
pub proof fn replacing_takes_each_place(s: Seq<char>, r: Replacement) -> (cut: (
    Seq<Seq<char>>,
    Seq<Seq<char>>,
))
    requires
        r.find@.len() > 0,
    ensures
        r.whole && seen_as(s, r.ignore_case) == seen_as(r.find@, r.ignore_case)
            ==> after_replacement(s, r) == (r.rep@, 1nat),
        r.whole && seen_as(s, r.ignore_case) != seen_as(r.find@, r.ignore_case)
            ==> after_replacement(s, r) == (s, 0nat),
        !r.whole ==> ({
            let (parts, hits) = cut;
            &&& parts.len() == hits.len() + 1
            &&& interleaved(parts, hits) == s
            &&& after_replacement(s, r).0 == join(parts, r.rep@)
            &&& after_replacement(s, r).1 == hits.len()
            &&& forall|k: int|
                0 <= k < hits.len() ==> seen_as(#[trigger] hits[k], r.ignore_case) == seen_as(
                    r.find@,
                    r.ignore_case,
                )
            &&& forall|k: int|
                0 <= k < parts.len() ==> !occurs_in(
                    seen_as(r.find@, r.ignore_case),
                    seen_as(#[trigger] parts[k], r.ignore_case),
                )
        }),
{
    assert(s.subrange(0, s.len() as int) =~= s);
    lemma_cut(s, r.ignore_case, seen_as(r.find@, r.ignore_case), r.rep@, 0)
}

/// Replacing in a sheet touches only texts, only in data rows, and only in the column that is
/// asked for.
pub proof fn replacing_touches_texts_alone(
    rows: RowsView,
    header: bool,
    only: Option<usize>,
    r: Replacement,
    i: int,
    c: int,
)
    requires
        0 <= i < rows.len(),
        0 <= c < rows[i].len(),
    ensures
        ({
            let out = rows_after(rows, data_start(header, rows), only, r);
            let open = i >= below_header(header, rows) && (only is Some ==> only->0 == c);
            &&& out.len() == rows.len()
            &&& out[i].len() == rows[i].len()
            &&& !open ==> out[i][c] == rows[i][c]
            &&& open ==> match rows[i][c] {
                Json::Text(t) => out[i][c] == Json::Text(after_replacement(t, r).0),
                other => out[i][c] == other,
            }
        }),
{
}

} // verus!
