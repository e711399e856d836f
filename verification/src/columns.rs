//! Work on one column of a sheet: finding it, adding results beside it, putting new
//! values into it, and splitting rows by it.

use crate::deck::{add_count, in_64_bits};
use crate::deep::push_deep;
use crate::grid::{
    cell_at, copy_cell, copy_rows, data_start, first_data_row, grown_row, set_deep, Rows, RowsView,
};
use crate::ordering::{are_rows_left, below_header, goes_down, held_in, occurs_in, shown_in};
use crate::reals::{is_nan, rank};
use crate::render::lemma_join_front;
use crate::sheets::{file_paths, make_file_paths};
use crate::text::{
    char_is_alnum, chars_of, concat2, copy_text, decimal, find_from, find_text, is_alnum, join,
    push_decimal, same, slice_text, texts_are_found_first, trim, trim_text,
};
use crate::value::{
    as_text, cell_text, cell_to_string, copy_values, field, text_value, Json, Num, Number, Value,
};
use vstd::prelude::*;

verus! {

// ── finding a column ────────────────────────────────────────────────────────

/// The first cell, from `i` on, that displays as `name`, or the length of the row.
pub open spec fn header_pos(row: Seq<Json>, name: Seq<char>, i: int) -> int
    decreases row.len() - i,
{
    if 0 <= i < row.len() && cell_text(row[i]) != name {
        header_pos(row, name, i + 1)
    } else {
        i
    }
}

/// The column that a selector names: a number from 0, or the name of a header cell;
/// `missing` is the complaint where there is no selector of either kind.
pub open spec fn resolved_col(
    by: Option<Json>,
    header: bool,
    rows: RowsView,
    missing: Seq<char>,
) -> Result<usize, Seq<char>> {
    match by {
        Some(Json::Number(Num::Unsigned(u))) => Ok(u as usize),
        Some(Json::Number(_)) => Err("bad column index"@),
        Some(Json::Text(name)) => if header && rows.len() > 0 && header_pos(rows[0], name, 0)
            < rows[0].len() {
            Ok(header_pos(rows[0], name, 0) as usize)
        } else {
            Err("column not found: "@ + name)
        },
        _ => Err(missing),
    }
}

pub open spec fn res_col(r: Result<usize, String>) -> Result<usize, Seq<char>> {
    match r {
        Ok(c) => Ok(c),
        Err(e) => Err(e@),
    }
}

pub fn find_header(row: &Vec<Value>, name: &str) -> (r: usize)
    ensures
        r == header_pos(row.deep_view(), name@, 0),
        r <= row@.len(),
{
    let mut i: usize = 0;
    while i < row.len()
        invariant
            i <= row@.len(),
            header_pos(row.deep_view(), name@, 0) == header_pos(row.deep_view(), name@, i as int),
        decreases row@.len() - i,
    {
        assert(row.deep_view()[i as int] == row@[i as int].deep_view());
        if same(cell_to_string(&row[i]).as_str(), name) {
            return i;
        }
        i = i + 1;
    }
    i
}

pub fn resolve_column(by: Option<&Value>, header: bool, rows: &Rows, missing: &str) -> (r: Result<
    usize,
    String,
>)
    ensures
        res_col(r) == resolved_col(
            crate::value::opt_json(by),
            header,
            rows.deep_view(),
            missing@,
        ),
{
    match by {
        Some(Value::Number(n)) => match n {
            Number::Unsigned(u) => Ok(*u as usize),
            _ => Err(copy_text("bad column index")),
        },
        Some(Value::Text(name)) => {
            if header && rows.len() > 0 {
                assert(rows.deep_view()[0] == rows@[0].deep_view());
                let p = find_header(&rows[0], name.as_str());
                if p < rows[0].len() {
                    return Ok(p);
                }
            }
            Err(concat2("column not found: ", name.as_str()))
        },
        _ => Err(copy_text(missing)),
    }
}

/// The column that a selector names.
pub fn resolve_col(by: Option<&Value>, header: bool, rows: &Rows) -> (r: Result<usize, String>)
    ensures
        res_col(r) == resolved_col(
            crate::value::opt_json(by),
            header,
            rows.deep_view(),
            "column must be a name or 0-based index"@,
        ),
{
    resolve_column(by, header, rows, "column must be a name or 0-based index")
}

/// What a column is called: the text of its header cell, or `Col` and its number.
pub open spec fn column_label(header: bool, rows: RowsView, c: int) -> Seq<char> {
    if header && rows.len() > 0 && c < rows[0].len() {
        cell_text(rows[0][c])
    } else {
        "Col"@ + decimal(in_64_bits((c + 1) as nat) as nat)
    }
}

pub fn label_of_column(header: bool, rows: &Rows, c: usize) -> (r: String)
    ensures
        r@ == column_label(header, rows.deep_view(), c as int),
{
    if header && rows.len() > 0 && c < rows[0].len() {
        assert(rows.deep_view()[0] == rows@[0].deep_view());
        assert(rows.deep_view()[0][c as int] == rows@[0]@[c as int].deep_view());
        return cell_to_string(&rows[0][c]);
    }
    let mut s = copy_text("Col");
    push_decimal(&mut s, (c as u64).wrapping_add(1));
    s
}

/// The header of a column of results: the one that the options give, or the label of
/// the source column with a suffix.
pub open spec fn result_label(
    opts: Json,
    header: bool,
    rows: RowsView,
    c: int,
    suffix: Seq<char>,
) -> Seq<char> {
    match as_text(field(opts, "into"@)) {
        Some(t) => t,
        None => column_label(header, rows, c) + suffix,
    }
}

pub fn label_of_results(opts: &Value, header: bool, rows: &Rows, c: usize, suffix: &str) -> (r:
    String)
    ensures
        r@ == result_label(opts.deep_view(), header, rows.deep_view(), c as int, suffix@),
{
    match opts.text_at("into") {
        Some(t) => copy_text(t),
        None => concat2(label_of_column(header, rows, c).as_str(), suffix),
    }
}

// ── numbers of a column ─────────────────────────────────────────────────────

/// The numbers among the first `n` readings.
pub open spec fn numbers_in(vals: Seq<Option<u64>>, n: nat) -> Seq<u64>
    decreases n,
{
    if n == 0 || n > vals.len() {
        Seq::empty()
    } else {
        let before = numbers_in(vals, (n - 1) as nat);
        match vals[n - 1] {
            Some(b) => before.push(b),
            None => before,
        }
    }
}

/// The numbers of a column, in order, without the cells that are none.
pub fn column_numbers(vals: &Vec<Option<u64>>) -> (r: Vec<u64>)
    ensures
        r@ == numbers_in(vals@, vals@.len()),
{
    let mut out: Vec<u64> = Vec::new();
    let mut i: usize = 0;
    while i < vals.len()
        invariant
            i <= vals@.len(),
            out@ == numbers_in(vals@, i as nat),
        decreases vals@.len() - i,
    {
        match vals[i] {
            Some(b) => {
                out.push(b);
            },
            None => {},
        }
        i = i + 1;
    }
    out
}

/// Whether readings `a` to `b` are all numbers.
pub open spec fn all_numbers(vals: Seq<Option<u64>>, a: int, b: int) -> bool {
    forall|k: int| a <= k < b ==> (#[trigger] vals[k]) is Some
}

/// The numbers that the moving average of row `i` is taken of: those of the last
/// `w` rows up to it, where the window is full and each of them is a number.
pub open spec fn window_at(vals: Seq<Option<u64>>, i: int, w: int) -> Option<Seq<u64>> {
    if i + 1 >= w && all_numbers(vals, i + 1 - w, i + 1) {
        Some(Seq::new(w as nat, |k: int| vals[i + 1 - w + k]->0))
    } else {
        None
    }
}

pub open spec fn opt_numbers(v: Option<Vec<u64>>) -> Option<Seq<u64>> {
    match v {
        Some(x) => Some(x@),
        None => None,
    }
}

/// The window of each row of a moving average over `w` rows.
pub fn op_sheet_movavg(vals: &Vec<Option<u64>>, w: usize) -> (r: Vec<Option<Vec<u64>>>)
    requires
        w >= 1,
    ensures
        r@.len() == vals@.len(),
        forall|i: int|
            0 <= i < r@.len() ==> opt_numbers(#[trigger] r@[i]) == window_at(vals@, i, w as int),
{
    let total: usize = vals.len();
    let mut out: Vec<Option<Vec<u64>>> = Vec::new();
    let mut i: usize = 0;
    while i < vals.len()
        invariant
            i <= vals@.len(),
            total == vals@.len(),
            w >= 1,
            out@.len() == i,
            forall|k: int|
                0 <= k < i ==> opt_numbers(#[trigger] out@[k]) == window_at(vals@, k, w as int),
        decreases vals@.len() - i,
    {
        let mut item: Option<Vec<u64>> = None;
        if i >= w - 1 {
            let a: usize = i - (w - 1);
            let mut nums: Vec<u64> = Vec::new();
            let mut full = true;
            let mut k: usize = a;
            while k <= i && full
                invariant
                    a <= k <= i + 1,
                    i < vals@.len(),
                    total == vals@.len(),
                    a == i + 1 - w,
                    full ==> nums@.len() == k - a && all_numbers(vals@, a as int, k as int) && (
                    forall|m: int| 0 <= m < nums@.len() ==> #[trigger] nums@[m] == vals@[a + m]->0),
                    !full ==> !all_numbers(vals@, a as int, i + 1),
                decreases i + 1 - k + (if full {
                    1int
                } else {
                    0int
                }),
            {
                match vals[k] {
                    Some(b) => {
                        nums.push(b);
                        k = k + 1;
                    },
                    None => {
                        full = false;
                    },
                }
            }
            if full {
                assert(nums@ =~= window_at(vals@, i as int, w as int)->0);
                item = Some(nums);
            }
        }
        out.push(item);
        i = i + 1;
    }
    out
}

/// The previous and the current number of row `i`, where both are numbers.
pub open spec fn step_at(vals: Seq<Option<u64>>, i: int) -> Option<(u64, u64)> {
    if i >= 1 {
        match (vals[i - 1], vals[i]) {
            (Some(p), Some(c)) => Some((p, c)),
            _ => None,
        }
    } else {
        None
    }
}

/// The numbers that the difference of each row is taken of.
pub fn op_sheet_delta(vals: &Vec<Option<u64>>) -> (r: Vec<Option<(u64, u64)>>)
    ensures
        r@ == Seq::new(vals@.len(), |i: int| step_at(vals@, i)),
{
    let mut out: Vec<Option<(u64, u64)>> = Vec::new();
    let mut i: usize = 0;
    while i < vals.len()
        invariant
            i <= vals@.len(),
            out@.len() == i,
            forall|k: int| 0 <= k < i ==> #[trigger] out@[k] == step_at(vals@, k),
        decreases vals@.len() - i,
    {
        let item = if i >= 1 {
            match (vals[i - 1], vals[i]) {
                (Some(p), Some(c)) => Some((p, c)),
                _ => None,
            }
        } else {
            None
        };
        out.push(item);
        i = i + 1;
    }
    assert(out@ =~= Seq::new(vals@.len(), |i: int| step_at(vals@, i)));
    out
}

/// The larger of two numbers; the other one where one is no number.
pub open spec fn larger_bits(a: u64, b: u64) -> u64 {
    if crate::reals::is_nan(a) || crate::reals::less(a, b) {
        b
    } else {
        a
    }
}

/// The smaller of two numbers; the other one where one is no number.
pub open spec fn smaller_bits(a: u64, b: u64) -> u64 {
    if crate::reals::is_nan(a) || crate::reals::less(b, a) {
        b
    } else {
        a
    }
}

/// A number brought up to `min` and down to `max`, as far as they are given.
pub open spec fn clamped(x: u64, min: Option<u64>, max: Option<u64>) -> u64 {
    let y = match min {
        Some(lo) => larger_bits(x, lo),
        None => x,
    };
    match max {
        Some(hi) => smaller_bits(y, hi),
        None => y,
    }
}

pub open spec fn clamped_column(
    vals: Seq<Option<u64>>,
    min: Option<u64>,
    max: Option<u64>,
) -> Seq<Option<u64>> {
    Seq::new(
        vals.len(),
        |i: int|
            match vals[i] {
                Some(x) => Some(clamped(x, min, max)),
                None => None,
            },
    )
}

/// The number of the first `n` readings that clamping changes.
pub open spec fn moved_count(
    vals: Seq<Option<u64>>,
    min: Option<u64>,
    max: Option<u64>,
    n: nat,
) -> nat
    decreases n,
{
    if n == 0 || n > vals.len() {
        0
    } else {
        moved_count(vals, min, max, (n - 1) as nat) + match vals[n - 1] {
            Some(x) => if !crate::reals::equal(clamped(x, min, max), x) {
                1nat
            } else {
                0nat
            },
            None => 0nat,
        }
    }
}

/// Clamps the numbers of a column; says how many were moved.
pub fn op_sheet_clamp(vals: &Vec<Option<u64>>, min: Option<u64>, max: Option<u64>) -> (r: (
    Vec<Option<u64>>,
    u64,
))
    ensures
        r.0@ == clamped_column(vals@, min, max),
        r.1 == in_64_bits(moved_count(vals@, min, max, vals@.len())),
{
    let mut out: Vec<Option<u64>> = Vec::new();
    let mut moved: u64 = 0;
    let mut i: usize = 0;
    while i < vals.len()
        invariant
            i <= vals@.len(),
            out@ == clamped_column(vals@, min, max).take(i as int),
            moved == in_64_bits(moved_count(vals@, min, max, i as nat)),
        decreases vals@.len() - i,
    {
        match vals[i] {
            Some(x) => {
                let y: u64 = match min {
                    Some(lo) => if crate::reals::bits_nan(x) || crate::reals::bits_less(x, lo) {
                        lo
                    } else {
                        x
                    },
                    None => x,
                };
                let z: u64 = match max {
                    Some(hi) => if crate::reals::bits_nan(y) || crate::reals::bits_less(hi, y) {
                        hi
                    } else {
                        y
                    },
                    None => y,
                };
                if !crate::reals::bits_equal(z, x) {
                    moved = add_count(
                        moved,
                        1,
                        Ghost(moved_count(vals@, min, max, i as nat)),
                        Ghost(1),
                    );
                }
                out.push(Some(z));
            },
            None => {
                out.push(None);
            },
        }
        i = i + 1;
        assert(out@ =~= clamped_column(vals@, min, max).take(i as int));
    }
    assert(out@ =~= clamped_column(vals@, min, max));
    (out, moved)
}

/// A clamped number lies within the bounds, and clamping it again leaves it.
pub proof fn clamped_stays_clamped(x: u64, lo: u64, hi: u64)
    requires
        !crate::reals::is_nan(lo) && !crate::reals::is_nan(hi),
        !crate::reals::less(hi, lo),
    ensures
        !crate::reals::less(clamped(x, Some(lo), Some(hi)), lo),
        !crate::reals::less(hi, clamped(x, Some(lo), Some(hi))),
        clamped(clamped(x, Some(lo), Some(hi)), Some(lo), Some(hi)) == clamped(
            x,
            Some(lo),
            Some(hi),
        ),
{
}

/// The bounds of a clamp: a complaint where neither is given.
pub fn clamp_bounds(min: Option<u64>, max: Option<u64>) -> (r: Result<(), String>)
    ensures
        match r {
            Ok(_) => min is Some || max is Some,
            Err(e) => min is None && max is None && e@ == "clamp needs at least one of min/max"@,
        },
{
    if min.is_none() && max.is_none() {
        Err(copy_text("clamp needs at least one of min/max"))
    } else {
        Ok(())
    }
}

// ── adding and replacing cells ──────────────────────────────────────────────

/// Result `i`, or null where there is none.
pub open spec fn result_at(results: Seq<Json>, i: int) -> Json {
    if 0 <= i < results.len() {
        results[i]
    } else {
        Json::Null
    }
}

/// Rows with one more cell each: the label in the header row, a result in each data row.
pub open spec fn with_results(
    rows: RowsView,
    start: int,
    label: Seq<char>,
    results: Seq<Json>,
) -> RowsView {
    Seq::new(
        rows.len(),
        |i: int|
            rows[i].push(
                if i < start {
                    Json::Text(label)
                } else {
                    result_at(results, i - start)
                },
            ),
    )
}

pub fn append_column(rows: &Rows, start: usize, label: &str, results: &Vec<Value>) -> (r: Rows)
    ensures
        r.deep_view() == with_results(rows.deep_view(), start as int, label@, results.deep_view()),
{
    let ghost all = with_results(rows.deep_view(), start as int, label@, results.deep_view());
    let mut out: Rows = Vec::new();
    let mut i: usize = 0;
    while i < rows.len()
        invariant
            i <= rows@.len(),
            all == with_results(rows.deep_view(), start as int, label@, results.deep_view()),
            out.deep_view() == all.take(i as int),
        decreases rows@.len() - i,
    {
        assert(rows.deep_view()[i as int] == rows@[i as int].deep_view());
        let mut row = copy_values(&rows[i]);
        if i < start {
            push_deep(&mut row, text_value(label));
        } else {
            let k: usize = i - start;
            if k < results.len() {
                assert(results.deep_view()[k as int] == results@[k as int].deep_view());
                push_deep(&mut row, results[k].dup());
            } else {
                push_deep(&mut row, Value::Null);
            }
        }
        push_deep(&mut out, row);
        i = i + 1;
        assert(out.deep_view() =~= all.take(i as int));
    }
    assert(all.take(i as int) =~= all);
    out
}

/// A row with a new value in column `c`, or with the value at its end where a new
/// column is asked for.
pub open spec fn with_value(row: Seq<Json>, c: int, new_column: bool, v: Json) -> Seq<Json> {
    if new_column {
        row.push(v)
    } else {
        grown_row(row, c + 1).update(c, v)
    }
}

/// What is put into data row `i`: the replacement, or the cell of the row itself.
pub open spec fn put_value(row: Seq<Json>, c: int, repl: Seq<Option<Json>>, i: int) -> Json {
    if 0 <= i < repl.len() && repl[i] is Some {
        repl[i]->0
    } else {
        cell_at(row, c)
    }
}

/// Rows with replacements in column `c` or in a new column labelled `into`.
pub open spec fn with_replacements(
    rows: RowsView,
    start: int,
    c: int,
    into: Option<Seq<char>>,
    repl: Seq<Option<Json>>,
) -> RowsView {
    Seq::new(
        rows.len(),
        |i: int|
            if i < start {
                match into {
                    Some(label) => rows[i].push(Json::Text(label)),
                    None => rows[i],
                }
            } else {
                with_value(rows[i], c, into is Some, put_value(rows[i], c, repl, i - start))
            },
    )
}

pub open spec fn opt_jsons(v: Seq<Option<Value>>) -> Seq<Option<Json>> {
    Seq::new(
        v.len(),
        |i: int|
            match v[i] {
                Some(x) => Some(x.deep_view()),
                None => None,
            },
    )
}

/// Sets column `c` of a row, which grows where it must.
pub fn set_in_row(row: &mut Vec<Value>, c: usize, v: Value)
    requires
        c < usize::MAX,
    ensures
        final(row).deep_view() == grown_row(old(row).deep_view(), c + 1).update(
            c as int,
            v.deep_view(),
        ),
{
    let ghost before = row.deep_view();
    while row.len() <= c
        invariant
            before.len() <= row@.len(),
            row@.len() <= c + 1 || row@.len() == before.len(),
            c < usize::MAX,
            row@.len() == row.deep_view().len(),
            forall|i: int|
                0 <= i < row@.len() ==> #[trigger] row.deep_view()[i] == cell_at(before, i),
        decreases c + 1 - row@.len(),
    {
        let ghost prev = row.deep_view();
        push_deep(row, Value::Null);
        assert forall|i: int| 0 <= i < row@.len() implies #[trigger] row.deep_view()[i] == cell_at(
            before,
            i,
        ) by {
            if i < prev.len() {
                assert(row.deep_view()[i] == prev[i]);
            }
        }
    }
    assert(row.deep_view() =~= grown_row(before, c + 1));
    set_deep(row, c, v);
}

pub fn replace_column(
    rows: &Rows,
    start: usize,
    c: usize,
    into: Option<&str>,
    repl: &Vec<Option<Value>>,
) -> (r: Rows)
    requires
        c < usize::MAX,
    ensures
        r.deep_view() == with_replacements(
            rows.deep_view(),
            start as int,
            c as int,
            match into {
                Some(l) => Some(l@),
                None => None,
            },
            opt_jsons(repl@),
        ),
{
    let ghost iv = match into {
        Some(l) => Some(l@),
        None => None,
    };
    let ghost all = with_replacements(
        rows.deep_view(),
        start as int,
        c as int,
        iv,
        opt_jsons(repl@),
    );
    let mut out: Rows = Vec::new();
    let mut i: usize = 0;
    while i < rows.len()
        invariant
            i <= rows@.len(),
            c < usize::MAX,
            iv == (match into {
                Some(l) => Some(l@),
                None => None,
            }),
            all == with_replacements(
                rows.deep_view(),
                start as int,
                c as int,
                iv,
                opt_jsons(repl@),
            ),
            out.deep_view() == all.take(i as int),
        decreases rows@.len() - i,
    {
        assert(rows.deep_view()[i as int] == rows@[i as int].deep_view());
        let mut row = copy_values(&rows[i]);
        if i < start {
            match into {
                Some(l) => {
                    push_deep(&mut row, text_value(l));
                },
                None => {},
            }
        } else {
            let k: usize = i - start;
            let mut v = copy_cell(&rows[i], c);
            if k < repl.len() {
                match &repl[k] {
                    Some(x) => {
                        v = x.dup();
                    },
                    None => {},
                }
            }
            assert(v.deep_view() == put_value(
                rows.deep_view()[i as int],
                c as int,
                opt_jsons(repl@),
                k as int,
            ));
            match into {
                Some(_) => {
                    push_deep(&mut row, v);
                },
                None => {
                    set_in_row(&mut row, c, v);
                },
            }
        }
        push_deep(&mut out, row);
        i = i + 1;
        assert(out.deep_view() =~= all.take(i as int));
    }
    assert(all.take(i as int) =~= all);
    out
}

/// What a cell is recoded to: the value that the mapping gives its text, else the
/// default; nothing where neither is there.
pub open spec fn recoded(cell: Json, mapping: Json, default: Option<Json>) -> Option<Json> {
    match field(mapping, cell_text(cell)) {
        Some(v) => Some(v),
        None => default,
    }
}

pub open spec fn recoded_column(
    rows: RowsView,
    start: int,
    c: int,
    mapping: Json,
    default: Option<Json>,
) -> Seq<Option<Json>> {
    Seq::new(
        (rows.len() - start) as nat,
        |i: int| recoded(cell_at(rows[start + i], c), mapping, default),
    )
}

/// The number of replacements among the first `n`.
pub open spec fn replaced_count(repl: Seq<Option<Json>>, n: nat) -> nat
    decreases n,
{
    if n == 0 || n > repl.len() {
        0
    } else {
        replaced_count(repl, (n - 1) as nat) + (if repl[n - 1] is Some {
            1nat
        } else {
            0nat
        })
    }
}

/// Recodes a column by a mapping; says how many cells were recoded.
pub fn op_sheet_map(
    rows: &Rows,
    header: bool,
    c: usize,
    mapping: &Value,
    default: Option<&Value>,
    into: Option<&str>,
) -> (r: (Rows, u64))
    requires
        c < usize::MAX,
    ensures
        ({
            let start = data_start(header, rows.deep_view());
            let repl = recoded_column(
                rows.deep_view(),
                start,
                c as int,
                mapping.deep_view(),
                crate::value::opt_json(default),
            );
            &&& r.0.deep_view() == with_replacements(
                rows.deep_view(),
                start,
                c as int,
                match into {
                    Some(l) => Some(l@),
                    None => None,
                },
                repl,
            )
            &&& r.1 == in_64_bits(replaced_count(repl, repl.len()))
        }),
{
    let start = first_data_row(header, rows);
    let ghost rv = rows.deep_view();
    let ghost dv = crate::value::opt_json(default);
    let ghost want = recoded_column(rv, start as int, c as int, mapping.deep_view(), dv);
    let mut repl: Vec<Option<Value>> = Vec::new();
    let mut count: u64 = 0;
    let mut i: usize = start;
    assert(opt_jsons(repl@) =~= want.take(0));
    while i < rows.len()
        invariant
            start <= i <= rows@.len(),
            rv == rows.deep_view(),
            dv == crate::value::opt_json(default),
            want == recoded_column(rv, start as int, c as int, mapping.deep_view(), dv),
            opt_jsons(repl@) == want.take(i - start),
            count == in_64_bits(replaced_count(want, (i - start) as nat)),
        decreases rows@.len() - i,
    {
        assert(rv[i as int] == rows@[i as int].deep_view());
        let cell = copy_cell(&rows[i], c);
        let key = cell_to_string(&cell);
        let item = match mapping.get(key.as_str()) {
            Some(v) => Some(v.dup()),
            None => match default {
                Some(d) => Some(d.dup()),
                None => None,
            },
        };
        if item.is_some() {
            count = add_count(
                count,
                1,
                Ghost(replaced_count(want, (i - start) as nat)),
                Ghost(1),
            );
        }
        let ghost before = opt_jsons(repl@);
        repl.push(item);
        assert(opt_jsons(repl@) =~= before.push(want[i - start]));
        i = i + 1;
        assert(opt_jsons(repl@) =~= want.take(i - start));
    }
    assert(want.take(i - start) =~= want);
    (replace_column(rows, start, c, into, &repl), count)
}

/// Sets the header of column `c`; an error where there is no header row.
pub fn op_sheet_rename_column(rows: &Rows, c: usize, to: &str) -> (r: Result<Rows, String>)
    requires
        c < usize::MAX,
    ensures
        match r {
            Ok(v) => rows@.len() > 0 && v.deep_view() == rows.deep_view().update(
                0,
                grown_row(rows.deep_view()[0], c + 1).update(c as int, Json::Text(to@)),
            ),
            Err(e) => rows@.len() == 0 && e@ == "sheet has no header row"@,
        },
{
    if rows.len() == 0 {
        return Err(copy_text("sheet has no header row"));
    }
    let mut out = copy_rows(rows);
    assert(out.deep_view()[0] == rows.deep_view()[0]);
    assert(rows.deep_view()[0] == rows@[0].deep_view());
    assert(out@.len() == out.deep_view().len());
    let mut row = copy_values(&rows[0]);
    set_in_row(&mut row, c, text_value(to));
    set_deep(&mut out, 0, row);
    Ok(out)
}

// ── splitting cells into rows ───────────────────────────────────────────────

/// The pieces of `s` from `i` on, between the occurrences of `sep`.
pub open spec fn pieces_from(s: Seq<char>, sep: Seq<char>, i: int) -> Seq<Seq<char>>
    decreases s.len() - i,
{
    match find_from(s, sep, i) {
        Some(p) => if 0 <= i <= p && p + sep.len() <= s.len() && sep.len() > 0 {
            seq![s.subrange(i, p)] + pieces_from(s, sep, p + sep.len())
        } else {
            Seq::empty()
        },
        None => seq![s.subrange(i, s.len() as int)],
    }
}

/// The pieces of a text between the occurrences of a separator.
pub fn split_by(s: &str, sep: &str) -> (r: Vec<String>)
    requires
        sep@.len() > 0,
    ensures
        r.deep_view() == pieces_from(s@, sep@, 0),
{
    let cs = chars_of(s);
    let ps = chars_of(sep);
    let total: usize = cs.len();
    let mut out: Vec<String> = Vec::new();
    let mut i: usize = 0;
    let ghost all = pieces_from(s@, sep@, 0);
    assert(out.deep_view() + pieces_from(s@, sep@, 0) =~= all);
    loop
        invariant_except_break
            i <= cs@.len(),
            total == cs@.len(),
            cs@ == s@,
            ps@ == sep@,
            sep@.len() > 0,
            out.deep_view() + pieces_from(s@, sep@, i as int) == all,
        ensures
            out.deep_view() == all,
        decreases cs@.len() - i,
    {
        let ghost before = out.deep_view();
        match find_text(&cs, &ps, i) {
            Some(p) => {
                assert(p + ps@.len() <= total);
                push_deep(&mut out, slice_text(&cs, i, p));
                assert(out.deep_view() + pieces_from(s@, sep@, p + sep@.len()) =~= before + (seq![
                    s@.subrange(i as int, p as int),
                ] + pieces_from(s@, sep@, p + sep@.len())));
                i = p + ps.len();
            },
            None => {
                push_deep(&mut out, slice_text(&cs, i, cs.len()));
                assert(out.deep_view() =~= before + seq![s@.subrange(i as int, s@.len() as int)]);
                break;
            },
        }
    }
    out
}

/// The values that a cell text is exploded into.
pub open spec fn exploded(raw: Seq<char>, sep: Seq<char>, trimmed: bool) -> Seq<Seq<char>> {
    if raw.len() == 0 {
        seq![Seq::empty()]
    } else {
        let ps = pieces_from(raw, sep, 0);
        if trimmed {
            Seq::new(ps.len(), |i: int| trim(ps[i]))
        } else {
            ps
        }
    }
}

/// A row once for each value, with the value in column `c`.
pub open spec fn row_copies(row: Seq<Json>, c: int, values: Seq<Seq<char>>) -> RowsView {
    Seq::new(
        values.len(),
        |i: int| grown_row(row, c + 1).update(c, Json::Text(values[i])),
    )
}

/// The data rows `start` up to `n`, each once for each value of its cell in column `c`.
pub open spec fn exploded_rows(
    rows: RowsView,
    start: int,
    c: int,
    sep: Seq<char>,
    trimmed: bool,
    n: int,
) -> RowsView
    decreases n - start,
{
    if n <= start || n > rows.len() {
        Seq::empty()
    } else {
        exploded_rows(rows, start, c, sep, trimmed, n - 1) + row_copies(
            rows[n - 1],
            c,
            exploded(cell_text(cell_at(rows[n - 1], c)), sep, trimmed),
        )
    }
}

fn explode_text(raw: &str, sep: &str, trimmed: bool) -> (r: Vec<String>)
    requires
        sep@.len() > 0,
    ensures
        r.deep_view() == exploded(raw@, sep@, trimmed),
{
    if chars_of(raw).len() == 0 {
        let mut one: Vec<String> = Vec::new();
        push_deep(&mut one, String::new());
        assert(one.deep_view() =~= seq![Seq::<char>::empty()]);
        return one;
    }
    let ps = split_by(raw, sep);
    if !trimmed {
        return ps;
    }
    let ghost want = exploded(raw@, sep@, trimmed);
    let mut out: Vec<String> = Vec::new();
    let mut i: usize = 0;
    while i < ps.len()
        invariant
            i <= ps@.len(),
            ps.deep_view() == pieces_from(raw@, sep@, 0),
            want == Seq::new(ps.deep_view().len(), |i: int| trim(ps.deep_view()[i])),
            out.deep_view() == want.take(i as int),
        decreases ps@.len() - i,
    {
        assert(ps.deep_view()[i as int] == ps@[i as int]@);
        push_deep(&mut out, trim_text(ps[i].as_str()));
        i = i + 1;
        assert(out.deep_view() =~= want.take(i as int));
    }
    assert(want.take(i as int) =~= want);
    out
}

fn push_copies(out: &mut Rows, row: &Vec<Value>, c: usize, values: &Vec<String>)
    requires
        c < usize::MAX,
    ensures
        final(out).deep_view() == old(out).deep_view() + row_copies(
            row.deep_view(),
            c as int,
            values.deep_view(),
        ),
{
    let ghost before = out.deep_view();
    let ghost all = row_copies(row.deep_view(), c as int, values.deep_view());
    let mut k: usize = 0;
    assert(out.deep_view() =~= before + all.take(0));
    while k < values.len()
        invariant
            k <= values@.len(),
            c < usize::MAX,
            all == row_copies(row.deep_view(), c as int, values.deep_view()),
            out.deep_view() == before + all.take(k as int),
        decreases values@.len() - k,
    {
        assert(values.deep_view()[k as int] == values@[k as int]@);
        let mut nr = copy_values(row);
        set_in_row(&mut nr, c, text_value(values[k].as_str()));
        push_deep(out, nr);
        k = k + 1;
        assert(out.deep_view() =~= before + all.take(k as int));
    }
    assert(all.take(k as int) =~= all);
}

/// The header row, where there is one, followed by other rows.
pub open spec fn under_header(rows: RowsView, start: int, data: RowsView) -> RowsView {
    if start == 1 {
        seq![rows[0]] + data
    } else {
        data
    }
}

/// Explodes a column of delimited values into rows; says how many data rows there are.
pub fn op_sheet_explode(rows: &Rows, header: bool, c: usize, sep: &str, trimmed: bool) -> (r: (
    Rows,
    usize,
))
    requires
        c < usize::MAX,
        sep@.len() > 0,
    ensures
        ({
            let start = data_start(header, rows.deep_view());
            let data = exploded_rows(
                rows.deep_view(),
                start,
                c as int,
                sep@,
                trimmed,
                rows@.len() as int,
            );
            &&& r.0.deep_view() == under_header(rows.deep_view(), start, data)
            &&& r.1 == data.len()
        }),
{
    let start = first_data_row(header, rows);
    let ghost rv = rows.deep_view();
    let mut out: Rows = Vec::new();
    if start == 1 {
        assert(rv[0] == rows@[0].deep_view());
        push_deep(&mut out, copy_values(&rows[0]));
    }
    let ghost head = out.deep_view();
    let mut i: usize = start;
    assert(out.deep_view() =~= head + exploded_rows(
        rv,
        start as int,
        c as int,
        sep@,
        trimmed,
        i as int,
    ));
    while i < rows.len()
        invariant
            start <= i <= rows@.len(),
            c < usize::MAX,
            sep@.len() > 0,
            rv == rows.deep_view(),
            out.deep_view() == head + exploded_rows(
                rv,
                start as int,
                c as int,
                sep@,
                trimmed,
                i as int,
            ),
        decreases rows@.len() - i,
    {
        assert(rv[i as int] == rows@[i as int].deep_view());
        let raw = cell_to_string(&copy_cell(&rows[i], c));
        let values = explode_text(raw.as_str(), sep, trimmed);
        push_copies(&mut out, &rows[i], c, &values);
        i = i + 1;
        assert(out.deep_view() =~= head + exploded_rows(
            rv,
            start as int,
            c as int,
            sep@,
            trimmed,
            i as int,
        ));
    }
    assert(out@.len() == out.deep_view().len());
    let n: usize = if start == 1 {
        out.len() - 1
    } else {
        out.len()
    };
    assert(out.deep_view() =~= under_header(
        rv,
        start as int,
        exploded_rows(rv, start as int, c as int, sep@, trimmed, rv.len() as int),
    ));
    (out, n)
}

// ── grouping by a column ────────────────────────────────────────────────────

/// The distinct texts among the first `n`, in the order in which they first come.
pub open spec fn first_seen(keys: Seq<Seq<char>>, n: nat) -> Seq<Seq<char>>
    decreases n,
{
    if n == 0 || n > keys.len() {
        Seq::empty()
    } else {
        let before = first_seen(keys, (n - 1) as nat);
        if before.contains(keys[n - 1]) {
            before
        } else {
            before.push(keys[n - 1])
        }
    }
}

/// The positions among the first `n` that have a key.
pub open spec fn positions_of(keys: Seq<Seq<char>>, key: Seq<char>, n: nat) -> Seq<int>
    decreases n,
{
    if n == 0 || n > keys.len() {
        Seq::empty()
    } else {
        let before = positions_of(keys, key, (n - 1) as nat);
        if keys[n - 1] == key {
            before.push(n - 1)
        } else {
            before
        }
    }
}

/// The distinct texts of a list, in the order in which they first come.
pub fn distinct_keys(keys: &Vec<String>) -> (r: Vec<String>)
    ensures
        r.deep_view() == first_seen(keys.deep_view(), keys@.len()),
{
    let mut out: Vec<String> = Vec::new();
    let mut i: usize = 0;
    assert(out.deep_view() =~= Seq::<Seq<char>>::empty());
    while i < keys.len()
        invariant
            i <= keys@.len(),
            out.deep_view() == first_seen(keys.deep_view(), i as nat),
        decreases keys@.len() - i,
    {
        assert(keys.deep_view()[i as int] == keys@[i as int]@);
        if !crate::xml::one_of(&out, keys[i].as_str()) {
            push_deep(&mut out, keys[i].clone());
        }
        i = i + 1;
    }
    out
}

/// No text comes twice among the distinct ones, and each text is among them.
pub proof fn first_seen_is_distinct(keys: Seq<Seq<char>>, n: nat)
    requires
        n <= keys.len(),
    ensures
        first_seen(keys, n).no_duplicates(),
        forall|i: int| 0 <= i < n ==> first_seen(keys, n).contains(#[trigger] keys[i]),
        first_seen(keys, n).len() <= n,
    decreases n,
{
    if n > 0 {
        first_seen_is_distinct(keys, (n - 1) as nat);
        let before = first_seen(keys, (n - 1) as nat);
        let now = first_seen(keys, n);
        assert forall|i: int| 0 <= i < n implies now.contains(#[trigger] keys[i]) by {
            if before.contains(keys[i]) {
                let k = choose|k: int| 0 <= k < before.len() && before[k] == keys[i];
                assert(now[k] == keys[i]);
            } else {
                assert(i == n - 1);
                assert(now[now.len() - 1] == keys[i]);
            }
        }
    }
}

/// The display texts of column `c` of the rows from `start` on.
pub open spec fn column_texts(rows: RowsView, start: int, c: int) -> Seq<Seq<char>> {
    Seq::new((rows.len() - start) as nat, |i: int| cell_text(cell_at(rows[start + i], c)))
}

pub fn texts_of_column(rows: &Rows, start: usize, c: usize) -> (r: Vec<String>)
    requires
        start <= rows@.len(),
    ensures
        r.deep_view() == column_texts(rows.deep_view(), start as int, c as int),
        r@.len() == rows@.len() - start,
{
    let ghost rv = rows.deep_view();
    let ghost all = column_texts(rv, start as int, c as int);
    let mut out: Vec<String> = Vec::new();
    let mut i: usize = start;
    while i < rows.len()
        invariant
            start <= i <= rows@.len(),
            rv == rows.deep_view(),
            all == column_texts(rv, start as int, c as int),
            out@.len() == i - start,
            out.deep_view() == all.take(i - start),
        decreases rows@.len() - i,
    {
        assert(rv[i as int] == rows@[i as int].deep_view());
        let t = if c < rows[i].len() {
            assert(rv[i as int][c as int] == rows@[i as int]@[c as int].deep_view());
            cell_to_string(&rows[i][c])
        } else {
            cell_to_string(&Value::Null)
        };
        push_deep(&mut out, t);
        i = i + 1;
        assert(out.deep_view() =~= all.take(i - start));
    }
    assert(all.take(i - start) =~= all);
    out
}

/// A key made fit for a file name: every character but letters and digits becomes an
/// underscore; `blank` where there is nothing.
pub open spec fn file_key(s: Seq<char>) -> Seq<char> {
    if s.len() == 0 {
        "blank"@
    } else {
        Seq::new(
            s.len(),
            |i: int|
                if is_alnum(s[i]) {
                    s[i]
                } else {
                    '_'
                },
        )
    }
}

pub fn sanitize_key(s: &str) -> (r: String)
    ensures
        r@ == file_key(s@),
{
    let cs = chars_of(s);
    if cs.len() == 0 {
        return copy_text("blank");
    }
    let mut out = String::new();
    let ghost all = file_key(s@);
    let mut i: usize = 0;
    while i < cs.len()
        invariant
            i <= cs@.len(),
            cs@ == s@,
            cs@.len() > 0,
            all == file_key(s@),
            out@ == all.take(i as int),
        decreases cs@.len() - i,
    {
        if char_is_alnum(cs[i]) {
            out.push(cs[i]);
        } else {
            out.push('_');
        }
        i = i + 1;
        assert(out@ =~= all.take(i as int));
    }
    assert(all.take(i as int) =~= all);
    out
}

/// The data rows with a key in column `c`, under the header.
pub open spec fn group_rows(rows: RowsView, start: int, c: int, key: Seq<char>) -> RowsView {
    let keys = column_texts(rows, start, c);
    let pos = positions_of(keys, key, keys.len());
    under_header(rows, start, Seq::new(pos.len(), |i: int| rows[start + pos[i]]))
}

/// The parts of a sheet by the values of a column, in the order in which the values
/// first come: the value, and its rows under the header.
pub open spec fn partition(rows: RowsView, header: bool, c: int) -> Seq<(Seq<char>, RowsView)> {
    let start = data_start(header, rows);
    let keys = column_texts(rows, start, c);
    let order = first_seen(keys, keys.len());
    Seq::new(order.len(), |i: int| (order[i], group_rows(rows, start, c, order[i])))
}

fn rows_of_group(rows: &Rows, start: usize, keys: &Vec<String>, key: &str, Ghost(c): Ghost<int>) -> (r:
    Rows)
    requires
        start <= rows@.len(),
        start <= 1,
        start == 1 ==> rows@.len() > 0,
        keys@.len() == rows@.len() - start,
        keys.deep_view() == column_texts(rows.deep_view(), start as int, c),
    ensures
        r.deep_view() == group_rows(rows.deep_view(), start as int, c, key@),
{
    let ghost rv = rows.deep_view();
    let ghost kv = keys.deep_view();
    let mut out: Rows = Vec::new();
    if start == 1 {
        assert(rv[0] == rows@[0].deep_view());
        push_deep(&mut out, copy_values(&rows[0]));
    }
    let ghost head = out.deep_view();
    let total: usize = rows.len();
    let mut i: usize = 0;
    assert(out.deep_view() =~= head + Seq::new(0nat, |k: int| rv[k]));
    while i < keys.len()
        invariant
            i <= keys@.len(),
            start + keys@.len() == rows@.len(),
            total == rows@.len(),
            rv == rows.deep_view(),
            kv == keys.deep_view(),
            out.deep_view() == head + Seq::new(
                positions_of(kv, key@, i as nat).len(),
                |k: int| rv[start + positions_of(kv, key@, i as nat)[k]],
            ),
        decreases keys@.len() - i,
    {
        assert(kv[i as int] == keys@[i as int]@);
        if same(keys[i].as_str(), key) {
            assert(rv[start + i] == rows@[start + i].deep_view());
            push_deep(&mut out, copy_values(&rows[start + i]));
        }
        i = i + 1;
        assert(out.deep_view() =~= head + Seq::new(
            positions_of(kv, key@, i as nat).len(),
            |k: int| rv[start + positions_of(kv, key@, i as nat)[k]],
        ));
    }
    assert(out.deep_view() =~= group_rows(rv, start as int, c, key@));
    out
}

/// Splits a sheet by the values of a column.
pub fn op_sheet_partition(rows: &Rows, header: bool, c: usize) -> (r: Vec<(String, Rows)>)
    ensures
        r.deep_view() == partition(rows.deep_view(), header, c as int),
{
    let start = first_data_row(header, rows);
    let keys = texts_of_column(rows, start, c);
    let order = distinct_keys(&keys);
    let ghost all = partition(rows.deep_view(), header, c as int);
    let mut out: Vec<(String, Rows)> = Vec::new();
    let mut i: usize = 0;
    while i < order.len()
        invariant
            i <= order@.len(),
            start == data_start(header, rows.deep_view()),
            start <= rows@.len(),
            keys@.len() == rows@.len() - start,
            keys.deep_view() == column_texts(rows.deep_view(), start as int, c as int),
            order.deep_view() == first_seen(keys.deep_view(), keys.deep_view().len()),
            all == partition(rows.deep_view(), header, c as int),
            out.deep_view() == all.take(i as int),
        decreases order@.len() - i,
    {
        assert(order.deep_view()[i as int] == order@[i as int]@);
        let group = rows_of_group(rows, start, &keys, order[i].as_str(), Ghost(c as int));
        let ghost item = (order@[i as int]@, group.deep_view());
        push_deep(&mut out, (order[i].clone(), group));
        assert(out.deep_view().last() == item);
        i = i + 1;
        assert(out.deep_view() =~= all.take(i as int));
    }
    assert(all.take(i as int) =~= all);
    out
}

pub open spec fn file_keys(keys: Seq<Seq<char>>) -> Seq<Seq<char>> {
    Seq::new(keys.len(), |i: int| file_key(keys[i]))
}

/// The paths of the files for values, no two the same.
pub fn paths_of_partition(dir: &str, prefix: &str, keys: &Vec<String>, ext: &str) -> (r: Vec<
    String,
>)
    requires
        keys@.len() < usize::MAX - 2,
    ensures
        r.deep_view() == file_paths(dir@, prefix@, file_keys(keys.deep_view()), ext@),
        r.deep_view().no_duplicates(),
        r@.len() == keys@.len(),
{
    let ghost kv = keys.deep_view();
    let mut bases: Vec<String> = Vec::new();
    let mut i: usize = 0;
    assert(bases.deep_view() =~= file_keys(kv).take(0));
    while i < keys.len()
        invariant
            i <= keys@.len(),
            kv == keys.deep_view(),
            kv.len() == keys@.len(),
            bases@.len() == i,
            bases.deep_view() == file_keys(kv).take(i as int),
        decreases keys@.len() - i,
    {
        assert(kv[i as int] == keys@[i as int]@);
        push_deep(&mut bases, sanitize_key(keys[i].as_str()));
        i = i + 1;
        assert(bases.deep_view() =~= file_keys(kv).take(i as int));
    }
    assert(bases.deep_view() =~= file_keys(kv));
    make_file_paths(dir, prefix, &bases, ext)
}

// ── what work on a column does ──────────────────────────────────────────────

/// A column is the one with the number that is given, or the first whose header cell shows
/// the name; a name without such a cell is refused, and so is anything else.
pub proof fn columns_are_numbered_or_named(
    by: Option<Json>,
    header: bool,
    rows: RowsView,
    missing: Seq<char>,
)
    requires
        rows.len() > 0 ==> rows[0].len() <= usize::MAX,
    ensures
        forall|u: u64|
            by == Some(Json::Number(Num::Unsigned(u))) && u <= usize::MAX ==> #[trigger]
                resolved_col(by, header, rows, missing) == Ok::<usize, Seq<char>>(u as usize),
        by matches Some(Json::Text(name)) ==> match resolved_col(by, header, rows, missing) {
            Ok(c) => header && rows.len() > 0 && c < rows[0].len() && cell_text(rows[0][c as int])
                == name && forall|k: int| 0 <= k < c ==> cell_text(#[trigger] rows[0][k]) != name,
            Err(e) => e == "column not found: "@ + name && (header && rows.len() > 0 ==> forall|
                k: int,
            |
                0 <= k < rows[0].len() ==> cell_text(#[trigger] rows[0][k]) != name),
        },
        !(by matches Some(Json::Text(_))) && !(by matches Some(Json::Number(Num::Unsigned(_))))
            ==> resolved_col(by, header, rows, missing) is Err,
{
    if by matches Some(Json::Text(name)) {
        if rows.len() > 0 {
            lemma_header_pos(rows[0], by->0->Text_0, 0);
        }
    }
}

proof fn lemma_header_pos(row: Seq<Json>, name: Seq<char>, i: int)
    requires
        0 <= i <= row.len(),
    ensures
        i <= header_pos(row, name, i) <= row.len(),
        forall|k: int| i <= k < header_pos(row, name, i) ==> cell_text(#[trigger] row[k]) != name,
        header_pos(row, name, i) < row.len() ==> cell_text(row[header_pos(row, name, i)]) == name,
    decreases row.len() - i,
{
    if i < row.len() && cell_text(row[i]) != name {
        lemma_header_pos(row, name, i + 1);
    }
}

/// A moving average is taken of the last readings up to a row, as many as are asked for and
/// in order, and only where these are all numbers.
pub proof fn windows_reach_back(vals: Seq<Option<u64>>, i: int, w: int)
    requires
        0 <= i < vals.len(),
        w >= 1,
    ensures
        match window_at(vals, i, w) {
            Some(xs) => xs.len() == w && i - w + 1 >= 0 && forall|k: int|
                0 <= k < w ==> vals[i - k] == Some(#[trigger] xs[w - 1 - k]),
            None => i - w + 1 < 0 || exists|k: int| 0 <= k < w && (#[trigger] vals[i - k]) is None,
        },
{
    if i + 1 >= w && !all_numbers(vals, i + 1 - w, i + 1) {
        let k = choose|k: int| i + 1 - w <= k < i + 1 && (#[trigger] vals[k]) is None;
        assert(vals[i - (i - k)] is None);
    }
    match window_at(vals, i, w) {
        Some(xs) => {
            assert forall|k: int| 0 <= k < w implies vals[i - k] == Some(
                #[trigger] xs[w - 1 - k],
            ) by {
                assert(vals[i - k] is Some);
            }
        },
        None => {},
    }
}

/// A step goes from the reading of the row above to that of a row, where both are numbers.
pub proof fn steps_go_from_above(vals: Seq<Option<u64>>, i: int)
    requires
        0 <= i < vals.len(),
    ensures
        step_at(vals, i) is Some <==> i > 0 && vals[i - 1] is Some && vals[i] is Some,
        step_at(vals, i) matches Some(s) ==> vals[i - 1] == Some(s.0) && vals[i] == Some(s.1),
{
}

/// A number between the bounds stays, a smaller one becomes the lower bound and a larger one
/// the upper; a bound that is not given does not count.
pub proof fn clamping_brings_between(x: u64, lo: Option<u64>, hi: Option<u64>)
    requires
        !is_nan(x),
        lo is Some ==> !is_nan(lo->0),
        hi is Some ==> !is_nan(hi->0),
        lo is Some && hi is Some ==> rank(lo->0) <= rank(hi->0),
    ensures
        (lo is Some ==> rank(lo->0) <= rank(x)) && (hi is Some ==> rank(x) <= rank(hi->0))
            ==> clamped(x, lo, hi) == x,
        lo is Some && rank(x) < rank(lo->0) ==> clamped(x, lo, hi) == lo->0,
        hi is Some && rank(x) > rank(hi->0) ==> clamped(x, lo, hi) == hi->0,
{
}

/// Recoding puts, in each data row, the value that the mapping has for the shown text into the
/// column, or into a new one at the end, else the default, else what was there; it leaves all
/// other cells.
pub proof fn recoding_maps_what_is_shown(
    rows: RowsView,
    header: bool,
    c: int,
    mapping: Json,
    default: Option<Json>,
    into: Option<Seq<char>>,
    i: int,
)
    requires
        0 <= i < rows.len(),
        0 <= c,
    ensures
        ({
            let start = below_header(header, rows);
            let repl = recoded_column(rows, data_start(header, rows), c, mapping, default);
            let out = with_replacements(rows, data_start(header, rows), c, into, repl);
            let v = match field(mapping, shown_in(rows, i, c)) {
                Some(v) => v,
                None => match default {
                    Some(d) => d,
                    None => held_in(rows, i, c),
                },
            };
            &&& out.len() == rows.len()
            &&& i < start && into is None ==> out[i] == rows[i]
            &&& i < start && into is Some ==> out[i] == rows[i].push(Json::Text(into->0))
            &&& i >= start && into is Some ==> out[i] == rows[i].push(v)
            &&& i >= start && into is None ==> out[i].len() > c && out[i][c] == v && forall|k: int|
                0 <= k < rows[i].len() && k != c ==> #[trigger] out[i][k] == rows[i][k]
        }),
{
}

/// The values that a cell is exploded into, or split into, make the text again with the
/// separator between them, and none of them holds it.
pub proof fn pieces_make_the_text_again(s: Seq<char>, sep: Seq<char>, i: int)
    requires
        sep.len() > 0,
        0 <= i <= s.len(),
    ensures
        pieces_from(s, sep, i).len() > 0,
        join(pieces_from(s, sep, i), sep) == s.subrange(i, s.len() as int),
        forall|k: int|
            0 <= k < pieces_from(s, sep, i).len() ==> !occurs_in(
                sep,
                #[trigger] pieces_from(s, sep, i)[k],
            ),
    decreases s.len() - i,
{
    texts_are_found_first(s, sep, i);
    let all = pieces_from(s, sep, i);
    match find_from(s, sep, i) {
        Some(p) => {
            let q = p + sep.len() as int;
            let rest = pieces_from(s, sep, q);
            pieces_make_the_text_again(s, sep, q);
            let first = s.subrange(i, p);
            assert(all.drop_first() =~= rest);
            lemma_join_front(all, sep);
            assert(first + sep + s.subrange(q, s.len() as int) =~= s.subrange(i, s.len() as int));
            assert(!occurs_in(sep, first)) by {
                if occurs_in(sep, first) {
                    let k = choose|k: int|
                        #![trigger first.subrange(k, k + sep.len())]
                        0 <= k && k + sep.len() <= first.len() && first.subrange(k, k + sep.len())
                            == sep;
                    assert(s.subrange(i + k, i + k + sep.len()) =~= first.subrange(
                        k,
                        k + sep.len(),
                    ));
                }
            }
            assert forall|k: int| 0 <= k < all.len() implies !occurs_in(
                sep,
                #[trigger] all[k],
            ) by {
                if k > 0 {
                    assert(all[k] == rest[k - 1]);
                }
            }
        },
        None => {
            let last = s.subrange(i, s.len() as int);
            if occurs_in(sep, last) {
                let k = choose|k: int|
                    #![trigger last.subrange(k, k + sep.len())]
                    0 <= k && k + sep.len() <= last.len() && last.subrange(k, k + sep.len())
                        == sep;
                assert(s.subrange(i + k, i + k + sep.len()) =~= last.subrange(k, k + sep.len()));
            }
        },
    }
}

/// The data rows that exploded rows come of, and which value of each.
proof fn lemma_exploded(
    rows: RowsView,
    start: int,
    c: int,
    sep: Seq<char>,
    trimmed: bool,
    n: int,
) -> (from: Seq<(int, int)>)
    requires
        0 <= start <= n <= rows.len(),
        c >= 0,
    ensures
        from.len() == exploded_rows(rows, start, c, sep, trimmed, n).len(),
        forall|a: int, b: int|
            0 <= a < b < from.len() ==> (#[trigger] from[a]).0 < (#[trigger] from[b]).0 || (
            from[a].0 == from[b].0 && from[a].1 < from[b].1),
        forall|a: int|
            0 <= a < from.len() ==> start <= (#[trigger] from[a]).0 < n && 0 <= from[a].1
                < exploded(shown_in(rows, from[a].0, c), sep, trimmed).len() && ({
                let row = exploded_rows(rows, start, c, sep, trimmed, n)[a];
                &&& row.len() > c
                &&& row[c] == Json::Text(
                    exploded(shown_in(rows, from[a].0, c), sep, trimmed)[from[a].1],
                )
                &&& forall|k: int|
                    0 <= k < rows[from[a].0].len() && k != c ==> #[trigger] row[k]
                        == rows[from[a].0][k]
            }),
        forall|r: int, m: int|
            start <= r < n && 0 <= m < exploded(shown_in(rows, r, c), sep, trimmed).len()
                ==> #[trigger] from.contains((r, m)),
    decreases n - start,
{
    if n <= start {
        Seq::empty()
    } else {
        let before = lemma_exploded(rows, start, c, sep, trimmed, n - 1);
        let was = exploded_rows(rows, start, c, sep, trimmed, n - 1);
        let values = exploded(shown_in(rows, n - 1, c), sep, trimmed);
        let copies = row_copies(rows[n - 1], c, values);
        let more = Seq::new(values.len(), |m: int| (n - 1, m));
        let from = before + more;
        let all = was + copies;
        assert forall|a: int| 0 <= a < from.len() implies start <= (#[trigger] from[a]).0 < n && 0
            <= from[a].1 < exploded(shown_in(rows, from[a].0, c), sep, trimmed).len() && ({
            let row = all[a];
            &&& row.len() > c
            &&& row[c] == Json::Text(
                exploded(shown_in(rows, from[a].0, c), sep, trimmed)[from[a].1],
            )
            &&& forall|k: int|
                0 <= k < rows[from[a].0].len() && k != c ==> #[trigger] row[k]
                    == rows[from[a].0][k]
        }) by {
            if a < before.len() {
                assert(from[a] == before[a]);
                assert(all[a] == was[a]);
            } else {
                assert(from[a] == more[a - before.len()]);
                assert(all[a] == copies[a - before.len()]);
            }
        }
        assert forall|a: int, b: int| 0 <= a < b < from.len() implies (#[trigger] from[a]).0 < (
        #[trigger] from[b]).0 || (from[a].0 == from[b].0 && from[a].1 < from[b].1) by {
            if b < before.len() {
                assert(from[a] == before[a] && from[b] == before[b]);
            } else if a < before.len() {
                assert(from[a] == before[a]);
            }
        }
        assert forall|r: int, m: int|
            start <= r < n && 0 <= m < exploded(
                shown_in(rows, r, c),
                sep,
                trimmed,
            ).len() implies #[trigger] from.contains((r, m)) by {
            if r < n - 1 {
                assert(before.contains((r, m)));
                let a = choose|a: int| 0 <= a < before.len() && before[a] == (r, m);
                assert(from[a] == (r, m));
            } else {
                assert(from[before.len() + m] == (r, m));
            }
        }
        from
    }
}

/// Exploding a column gives each data row once for each value of its cell, in order, with the
/// value in the column and all other cells as they were; without text a row has one value.
pub proof fn exploding_gives_a_row_for_each_value(
    rows: RowsView,
    header: bool,
    c: int,
    sep: Seq<char>,
    trimmed: bool,
) -> (from: Seq<(int, int)>)
    requires
        c >= 0,
        sep.len() > 0,
    ensures
        ({
            let start = below_header(header, rows);
            let data = exploded_rows(
                rows,
                data_start(header, rows),
                c,
                sep,
                trimmed,
                rows.len() as int,
            );
            &&& from.len() == data.len()
            &&& forall|a: int, b: int|
                0 <= a < b < from.len() ==> (#[trigger] from[a]).0 < (#[trigger] from[b]).0 || (
                from[a].0 == from[b].0 && from[a].1 < from[b].1)
            &&& forall|a: int|
                0 <= a < from.len() ==> start <= (#[trigger] from[a]).0 < rows.len()
                    && data[a].len() > c && data[a][c] == Json::Text(
                    exploded(shown_in(rows, from[a].0, c), sep, trimmed)[from[a].1],
                ) && forall|k: int|
                    0 <= k < rows[from[a].0].len() && k != c ==> #[trigger] data[a][k]
                        == rows[from[a].0][k]
            &&& forall|r: int, m: int|
                start <= r < rows.len() && 0 <= m < exploded(
                    shown_in(rows, r, c),
                    sep,
                    trimmed,
                ).len() ==> #[trigger] from.contains((r, m))
        }),
        exploded(Seq::empty(), sep, trimmed) == seq![Seq::<char>::empty()],
        forall|raw: Seq<char>|
            raw.len() > 0 ==> join(#[trigger] exploded(raw, sep, false), sep) == raw && exploded(
                raw,
                sep,
                true,
            ).len() == exploded(raw, sep, false).len() && forall|k: int|
                0 <= k < exploded(raw, sep, true).len() ==> #[trigger] exploded(raw, sep, true)[k]
                    == trim(exploded(raw, sep, false)[k]),
{
    assert forall|raw: Seq<char>| raw.len() > 0 implies join(
        #[trigger] exploded(raw, sep, false),
        sep,
    ) == raw by {
        pieces_make_the_text_again(raw, sep, 0);
        assert(raw.subrange(0, raw.len() as int) =~= raw);
    }
    lemma_exploded(rows, data_start(header, rows), c, sep, trimmed, rows.len() as int)
}

pub proof fn lemma_positions(keys: Seq<Seq<char>>, key: Seq<char>, n: nat)
    requires
        n <= keys.len(),
    ensures
        goes_down(positions_of(keys, key, n)),
        forall|i: int|
            0 <= i < positions_of(keys, key, n).len() ==> 0 <= #[trigger] positions_of(
                keys,
                key,
                n,
            )[i] < n && keys[positions_of(keys, key, n)[i]] == key,
        forall|k: int|
            0 <= k < n && #[trigger] keys[k] == key ==> positions_of(keys, key, n).contains(k),
    decreases n,
{
    if n > 0 {
        lemma_positions(keys, key, (n - 1) as nat);
        let before = positions_of(keys, key, (n - 1) as nat);
        let now = positions_of(keys, key, n);
        assert forall|k: int| 0 <= k < n && #[trigger] keys[k] == key implies now.contains(k) by {
            if k < n - 1 {
                assert(before.contains(k));
                let i = choose|i: int| 0 <= i < before.len() && before[i] == k;
                assert(now[i] == k);
            } else {
                assert(now[before.len() as int] == k);
            }
        }
    }
}

/// A sheet is parted by what its rows show in a column: each part has the header and, in
/// order, just the data rows that show its value; the values come in the order in which they
/// are first met, each once.
pub proof fn parts_have_their_rows(rows: RowsView, header: bool, c: int, i: int) -> (at: Seq<int>)
    requires
        0 <= i < partition(rows, header, c).len(),
    ensures
        ({
            let parts = partition(rows, header, c);
            let start = below_header(header, rows);
            &&& are_rows_left(rows, header, parts[i].1, at)
            &&& forall|r: int|
                start <= r < rows.len() ==> (at.contains(r) <==> #[trigger] shown_in(rows, r, c)
                    == parts[i].0)
            &&& at.len() > 0
            &&& forall|r: int|
                start <= r < rows.len() ==> exists|k: int|
                    0 <= k < parts.len() && (#[trigger] parts[k]).0 == #[trigger] shown_in(
                        rows,
                        r,
                        c,
                    )
            &&& forall|k: int| 0 <= k < parts.len() && k != i ==> (#[trigger] parts[k]).0 != parts[i].0
        }),
{
    let start = data_start(header, rows);
    let keys = column_texts(rows, start, c);
    let order = first_seen(keys, keys.len());
    let parts = partition(rows, header, c);
    let key = order[i];
    first_seen_is_distinct(keys, keys.len());
    lemma_positions(keys, key, keys.len());
    let pos = positions_of(keys, key, keys.len());
    let at = Seq::new(pos.len(), |k: int| start + pos[k]);
    assert forall|r: int| start <= r < rows.len() implies (at.contains(r) <==> #[trigger] shown_in(
        rows,
        r,
        c,
    ) == key) by {
        assert(keys[r - start] == shown_in(rows, r, c));
        if at.contains(r) {
            let k = choose|k: int| 0 <= k < at.len() && at[k] == r;
            assert(keys[pos[k]] == key);
        }
        if shown_in(rows, r, c) == key {
            assert(pos.contains(r - start));
            let k = choose|k: int| 0 <= k < pos.len() && pos[k] == r - start;
            assert(at[k] == r);
        }
    }
    assert forall|k: int| 0 <= k < at.len() implies start <= #[trigger] at[k] < rows.len()
        && parts[i].1[start + k] == rows[at[k]] by {
        assert(0 <= pos[k] < keys.len());
    }
    assert forall|r: int| start <= r < rows.len() implies exists|k: int|
        0 <= k < parts.len() && (#[trigger] parts[k]).0 == #[trigger] shown_in(rows, r, c) by {
        assert(order.contains(keys[r - start]));
        let k = choose|k: int| 0 <= k < order.len() && order[k] == keys[r - start];
        assert(parts[k].0 == shown_in(rows, r, c));
    }
    lemma_first_seen_is_there(keys, keys.len(), i);
    let q = choose|q: int| 0 <= q < keys.len() && keys[q] == key;
    assert(shown_in(rows, start + q, c) == key);
    assert(at.contains(start + q));
    at
}

proof fn lemma_first_seen_is_there(keys: Seq<Seq<char>>, n: nat, i: int)
    requires
        n <= keys.len(),
        0 <= i < first_seen(keys, n).len(),
    ensures
        exists|q: int| 0 <= q < n && keys[q] == first_seen(keys, n)[i],
    decreases n,
{
    if n > 0 {
        let before = first_seen(keys, (n - 1) as nat);
        if i < before.len() {
            lemma_first_seen_is_there(keys, (n - 1) as nat, i);
            let q = choose|q: int| 0 <= q < n - 1 && keys[q] == before[i];
            assert(keys[q] == first_seen(keys, n)[i]);
        } else {
            assert(keys[n - 1] == first_seen(keys, n)[i]);
        }
    }
}

} // verus!
