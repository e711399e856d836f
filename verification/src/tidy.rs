//! Sheets put in order: duplicate rows removed, rows appended, blank cells filled,
//! empty rows and columns dropped, a header put on top, and columns computed.

use crate::columns::under_header;
use crate::deck::{add_count, in_64_bits};
use crate::deep::{append_deep, push_deep, tabulate};
use crate::grid::{cell_at, copy_cell, copy_rows, data_start, first_data_row, Rows, RowsView};
use crate::ordering::{
    below_header, data_rows, goes_down, held_in, is_blank, is_empty_in, join_header,
    lemma_trimmed_away, sheet_cell_blank, shown_in,
};
use crate::reals::{bits_equal, equal, is_nan, rank};
use crate::records::record_row;
use crate::reshape::{
    chosen_cells, is_listed, listed_columns, listed_texts, res_cols, resolve_list, row_of_record,
    texts_of_listed,
};
use crate::tables::{count_columns, widest};
use crate::text::{copy_text, join, join_texts, same};
use crate::value::{as_array, copy_values, field, json_text, to_json, Json, Value};
use crate::workbook::{item_texts, texts_of_items};
use vstd::prelude::*;

verus! {

// ── duplicate rows ──────────────────────────────────────────────────────────

/// The columns by which rows are compared: those that options list; none where whole
/// rows are.
pub open spec fn compared_columns(opts: Json, header: bool, rows: RowsView) -> Result<
    Option<Seq<usize>>,
    Seq<char>,
> {
    match field(opts, "by"@) {
        None => Ok(None),
        Some(Json::Null) => Ok(None),
        Some(v) => match listed_columns(Some(v), header, rows) {
            Ok(c) => Ok(Some(c)),
            Err(e) => Err(e),
        },
    }
}

pub open spec fn opt_cols(c: Option<Vec<usize>>) -> Option<Seq<usize>> {
    match c {
        Some(v) => Some(v@),
        None => None,
    }
}

pub open spec fn res_opt_cols(r: Result<Option<Vec<usize>>, String>) -> Result<
    Option<Seq<usize>>,
    Seq<char>,
> {
    match r {
        Ok(c) => Ok(opt_cols(c)),
        Err(e) => Err(e@),
    }
}

pub fn read_compared(opts: &Value, header: bool, rows: &Rows) -> (r: Result<
    Option<Vec<usize>>,
    String,
>)
    ensures
        res_opt_cols(r) == compared_columns(opts.deep_view(), header, rows.deep_view()),
{
    match opts.get("by") {
        None => Ok(None),
        Some(v) => {
            if v.is_null() {
                return Ok(None);
            }
            match resolve_list(Some(v), header, rows) {
                Ok(c) => Ok(Some(c)),
                Err(e) => Err(e),
            }
        },
    }
}

/// The key of a row: the texts of the compared columns, joined, or the row as JSON.
pub open spec fn row_key(row: Seq<Json>, cols: Option<Seq<usize>>) -> Seq<char> {
    match cols {
        Some(cs) => join(listed_texts(row, cs, false, cs.len()), "\u{1}"@),
        None => json_text(Json::Array(row)),
    }
}

fn make_row_key(row: &Vec<Value>, cols: &Option<Vec<usize>>) -> (r: String)
    ensures
        r@ == row_key(row.deep_view(), opt_cols(*cols)),
{
    match cols {
        Some(cs) => {
            let parts = texts_of_listed(row, cs, false);
            join_texts(&parts, "\u{1}")
        },
        None => {
            let whole = crate::value::array(copy_values(row));
            to_json(&whole)
        },
    }
}

/// The keys of rows.
pub open spec fn row_keys(data: RowsView, cols: Option<Seq<usize>>) -> Seq<Seq<char>> {
    Seq::new(data.len(), |i: int| row_key(data[i], cols))
}

/// Whether position `i` is kept: no position before it, or after it where the last ones
/// are kept, has its key.
pub open spec fn is_kept(keys: Seq<Seq<char>>, keep_last: bool, i: int) -> bool {
    if keep_last {
        forall|k: int| i < k < keys.len() ==> #[trigger] keys[k] != keys[i]
    } else {
        forall|k: int| 0 <= k < i ==> #[trigger] keys[k] != keys[i]
    }
}

/// The kept ones of the first `n` rows.
pub open spec fn kept_rows(
    data: RowsView,
    keys: Seq<Seq<char>>,
    keep_last: bool,
    n: nat,
) -> RowsView
    decreases n,
{
    if n == 0 || n > data.len() {
        Seq::empty()
    } else {
        let before = kept_rows(data, keys, keep_last, (n - 1) as nat);
        if is_kept(keys, keep_last, n - 1) {
            before.push(data[n - 1])
        } else {
            before
        }
    }
}

/// The rows without those whose key another row has.
pub open spec fn deduped(data: RowsView, cols: Option<Seq<usize>>, keep_last: bool) -> RowsView {
    kept_rows(data, row_keys(data, cols), keep_last, data.len())
}

fn keeps(keys: &Vec<String>, keep_last: bool, i: usize) -> (r: bool)
    requires
        i < keys@.len(),
    ensures
        r == is_kept(keys.deep_view(), keep_last, i as int),
{
    let ghost kv = keys.deep_view();
    assert(kv.len() == keys@.len());
    assert(kv[i as int] == keys@[i as int]@);
    let total: usize = keys.len();
    let from: usize = if keep_last && i < total {
        i + 1
    } else {
        0
    };
    let to: usize = if keep_last {
        keys.len()
    } else {
        i
    };
    let mut k: usize = from;
    while k < to
        invariant
            from <= k <= to || from > to,
            k >= from,
            to <= keys@.len(),
            i < keys@.len(),
            kv == keys.deep_view(),
            kv[i as int] == keys@[i as int]@,
            keep_last ==> from == i + 1 && to == keys@.len(),
            !keep_last ==> from == 0 && to == i,
            forall|m: int| from <= m < k ==> #[trigger] kv[m] != kv[i as int],
        decreases to - k,
    {
        assert(kv[k as int] == keys@[k as int]@);
        if same(keys[k].as_str(), keys[i].as_str()) {
            return false;
        }
        k = k + 1;
    }
    true
}

/// The data rows of a sheet without duplicates, under the header; also how many are
/// kept and how many were removed.
pub fn op_sheet_dedupe(rows: &Rows, header: bool, cols: &Option<Vec<usize>>, keep_last: bool) -> (r: (
    Rows,
    usize,
    usize,
))
    ensures
        ({
            let rv = rows.deep_view();
            let start = data_start(header, rv);
            let kept = deduped(data_rows(rv, start), opt_cols(*cols), keep_last);
            &&& r.0.deep_view() == under_header(rv, start, kept)
            &&& r.1 == kept.len()
            &&& r.1 + r.2 == rv.len() - start
        }),
{
    let start = first_data_row(header, rows);
    let ghost rv = rows.deep_view();
    let ghost cv = opt_cols(*cols);
    let ghost data = data_rows(rv, start as int);
    let ghost kv = row_keys(data, cv);
    let n: usize = rows.len() - start;
    assert(rv.len() == rows@.len());
    let key = |i: usize| -> (t: String)
        requires
            i < n,
            n == rows@.len() - start,
            start <= rows@.len(),
        ensures
            t@ == row_key(rows@[start + i].deep_view(), opt_cols(*cols)),
        { make_row_key(&rows[start + i], cols) };
    let ghost g = |i: int| row_key(data[i], cv);
    assert forall|i: usize| i < n implies data[i as int] == (#[trigger] rows@[start
        + i]).deep_view() by {}
    let keys = tabulate(n, &key, Ghost(g));
    assert(keys.deep_view() =~= kv);
    let mut out: Rows = Vec::new();
    let mut i: usize = 0;
    assert(out.deep_view() =~= Seq::<Seq<Json>>::empty());
    let total: usize = rows.len();
    while i < n
        invariant
            i <= n,
            total == rows@.len(),
            n == total - start,
            n == rows@.len() - start,
            start <= rows@.len(),
            rv == rows.deep_view(),
            data == data_rows(rv, start as int),
            data.len() == n,
            keys@.len() == n,
            keys.deep_view() == kv,
            out@.len() <= i,
            out.deep_view() == kept_rows(data, kv, keep_last, i as nat),
        decreases n - i,
    {
        assert(data[i as int] == rows@[start + i].deep_view());
        if keeps(&keys, keep_last, i) {
            let at: usize = start + i;
            push_deep(&mut out, copy_values(&rows[at]));
        }
        i = i + 1;
    }
    let kept: usize = out.len();
    assert(out.deep_view().len() == kept);
    (join_header(rows, start, out), kept, n - kept)
}

/// Whether one of the first `n` positions is kept and has a key.
spec fn some_kept(keys: Seq<Seq<char>>, keep_last: bool, n: int, key: Seq<char>) -> bool {
    exists|k: int| 0 <= k < n && #[trigger] is_kept(keys, keep_last, k) && keys[k] == key
}

proof fn lemma_kept(data: RowsView, cols: Option<Seq<usize>>, keep_last: bool, n: nat)
    requires
        n <= data.len(),
    ensures
        ({
            let keys = row_keys(data, cols);
            let kept = row_keys(kept_rows(data, keys, keep_last, n), cols);
            &&& kept.no_duplicates()
            &&& forall|j: int| #![trigger kept[j]]
                0 <= j < kept.len() ==> some_kept(keys, keep_last, n as int, kept[j])
            &&& forall|k: int|
                0 <= k < n && #[trigger] is_kept(keys, keep_last, k) ==> kept.contains(keys[k])
        }),
    decreases n,
{
    let keys = row_keys(data, cols);
    let now = row_keys(kept_rows(data, keys, keep_last, n), cols);
    if n > 0 {
        lemma_kept(data, cols, keep_last, (n - 1) as nat);
        let was = row_keys(kept_rows(data, keys, keep_last, (n - 1) as nat), cols);
        if is_kept(keys, keep_last, n - 1) {
            assert(now =~= was.push(keys[n - 1]));
            assert forall|j: int| #![trigger now[j]] 0 <= j < now.len() implies some_kept(
                keys,
                keep_last,
                n as int,
                now[j],
            ) by {
                if j < was.len() {
                    assert(some_kept(keys, keep_last, n - 1, was[j]));
                    let k = choose|k: int|
                        0 <= k < n - 1 && is_kept(keys, keep_last, k) && keys[k] == was[j];
                    assert(keys[k] == now[j]);
                } else {
                    assert(keys[n - 1] == now[j]);
                }
            }
            assert forall|a: int, b: int| 0 <= a < now.len() && 0 <= b < now.len() && a != b implies now[a]
                != now[b] by {
                let (x, y) = if a < b {
                    (a, b)
                } else {
                    (b, a)
                };
                if y == was.len() {
                    assert(some_kept(keys, keep_last, n - 1, was[x]));
                    let k = choose|k: int|
                        0 <= k < n - 1 && is_kept(keys, keep_last, k) && keys[k] == was[x];
                    assert(keys[k] != keys[n - 1]);
                } else {
                    assert(now[x] == was[x] && now[y] == was[y]);
                }
            }
            assert forall|k: int|
                0 <= k < n && #[trigger] is_kept(keys, keep_last, k) implies now.contains(
                keys[k],
            ) by {
                if k == n - 1 {
                    assert(now[was.len() as int] == keys[k]);
                } else {
                    assert(was.contains(keys[k]));
                    let j = choose|j: int| 0 <= j < was.len() && was[j] == keys[k];
                    assert(now[j] == keys[k]);
                }
            }
        } else {
            assert(now =~= was);
            assert forall|j: int| #![trigger now[j]] 0 <= j < now.len() implies some_kept(
                keys,
                keep_last,
                n as int,
                now[j],
            ) by {
                assert(some_kept(keys, keep_last, n - 1, was[j]));
                let k = choose|k: int|
                    0 <= k < n - 1 && is_kept(keys, keep_last, k) && keys[k] == was[j];
                assert(is_kept(keys, keep_last, k) && keys[k] == now[j]);
            }
            assert forall|k: int|
                0 <= k < n && #[trigger] is_kept(keys, keep_last, k) implies now.contains(
                keys[k],
            ) by {
                assert(k != n - 1);
            }
        }
    } else {
        assert(now =~= Seq::<Seq<char>>::empty());
    }
}

proof fn lemma_has_kept(keys: Seq<Seq<char>>, keep_last: bool, i: int)
    requires
        0 <= i < keys.len(),
    ensures
        exists|k: int|
            0 <= k < keys.len() && #[trigger] is_kept(keys, keep_last, k) && keys[k] == keys[i],
    decreases
            (if keep_last {
                keys.len() - i
            } else {
                i
            }),
{
    if !is_kept(keys, keep_last, i) {
        if keep_last {
            let m = choose|m: int| i < m < keys.len() && #[trigger] keys[m] == keys[i];
            lemma_has_kept(keys, keep_last, m);
        } else {
            let m = choose|m: int| 0 <= m < i && #[trigger] keys[m] == keys[i];
            lemma_has_kept(keys, keep_last, m);
        }
    }
}

/// What is kept of rows has no key twice, and has each key that there was.
pub proof fn deduped_is_distinct(data: RowsView, cols: Option<Seq<usize>>, keep_last: bool)
    ensures
        row_keys(deduped(data, cols, keep_last), cols).no_duplicates(),
        forall|i: int|
            0 <= i < data.len() ==> row_keys(deduped(data, cols, keep_last), cols).contains(
                row_key(#[trigger] data[i], cols),
            ),
{
    lemma_kept(data, cols, keep_last, data.len());
    let keys = row_keys(data, cols);
    assert forall|i: int| 0 <= i < data.len() implies row_keys(
        deduped(data, cols, keep_last),
        cols,
    ).contains(row_key(#[trigger] data[i], cols)) by {
        lemma_has_kept(keys, keep_last, i);
        assert(keys[i] == row_key(data[i], cols));
    }
}

// ── rows appended ───────────────────────────────────────────────────────────

/// The rows of a JSON array of arrays; what is no array counts as an empty row.
pub open spec fn json_rows(a: Seq<Json>) -> RowsView {
    Seq::new(
        a.len(),
        |i: int|
            match a[i] {
                Json::Array(r) => r,
                _ => Seq::empty(),
            },
    )
}

pub fn rows_of_json(a: &Vec<Value>) -> (r: Rows)
    ensures
        r.deep_view() == json_rows(a.deep_view()),
{
    let ghost av = a.deep_view();
    let row = |i: usize| -> (t: Vec<Value>)
        requires
            i < a@.len(),
        ensures
            t.deep_view() == (match a@[i as int].deep_view() {
                Json::Array(r) => r,
                _ => Seq::empty(),
            }),
        {
            match &a[i] {
                Value::Array(r) => {
                    proof {
                        crate::value::lemma_array_view(r);
                    }
                    copy_values(r)
                },
                _ => {
                    let none: Vec<Value> = Vec::new();
                    assert(none.deep_view() =~= Seq::<Json>::empty());
                    none
                },
            }
        };
    let ghost g = |i: int|
        match av[i] {
            Json::Array(r) => r,
            _ => Seq::empty(),
        };
    assert(av.len() == a@.len());
    assert forall|i: usize| i < a@.len() implies av[i as int] == (#[trigger] a@[
        i as int
    ]).deep_view() by {}
    let out = tabulate(a.len(), &row, Ghost(g));
    assert(out.deep_view() =~= json_rows(av));
    out
}

/// The rows that options ask to append: `rows` as they are, or `records` in the order
/// of the first row's fields.
pub open spec fn rows_to_append(opts: Json, rows: RowsView) -> Result<RowsView, Seq<char>> {
    match as_array(field(opts, "rows"@)) {
        Some(raw) => Ok(json_rows(raw)),
        None => match as_array(field(opts, "records"@)) {
            Some(recs) => {
                let fields = if rows.len() > 0 {
                    item_texts(rows[0])
                } else {
                    Seq::empty()
                };
                Ok(Seq::new(recs.len(), |i: int| record_row(fields, recs[i])))
            },
            None => Err("need rows or records to append"@),
        },
    }
}

/// Appends rows to a sheet; also how many were added.
pub fn op_sheet_append(opts: &Value, rows: &Rows) -> (r: Result<(Rows, usize), String>)
    ensures
        match (r, rows_to_append(opts.deep_view(), rows.deep_view())) {
            (Ok(p), Ok(more)) => p.0.deep_view() == rows.deep_view() + more && p.1 == more.len(),
            (Err(e), Err(m)) => e@ == m,
            _ => false,
        },
{
    let ghost rv = rows.deep_view();
    let more: Rows = match opts.array_at("rows") {
        Some(raw) => rows_of_json(raw),
        None => match opts.array_at("records") {
            Some(recs) => {
                assert(rv.len() == rows@.len());
                let fields = if rows.len() > 0 {
                    assert(rv[0] == rows@[0].deep_view());
                    texts_of_items(&rows[0])
                } else {
                    let none: Vec<String> = Vec::new();
                    assert(none.deep_view() =~= Seq::<Seq<char>>::empty());
                    none
                };
                let ghost fv = fields.deep_view();
                let ghost cv = recs.deep_view();
                let row = |i: usize| -> (t: Vec<Value>)
                    requires
                        i < recs@.len(),
                    ensures
                        t.deep_view() == record_row(
                            fields.deep_view(),
                            recs@[i as int].deep_view(),
                        ),
                    { row_of_record(&fields, &recs[i]) };
                let ghost g = |i: int| record_row(fv, cv[i]);
                assert(cv.len() == recs@.len());
                assert forall|i: usize| i < recs@.len() implies cv[i as int] == (#[trigger] recs@[
                    i as int
                ]).deep_view() by {}
                tabulate(recs.len(), &row, Ghost(g))
            },
            None => {
                return Err(copy_text("need rows or records to append"));
            },
        },
    };
    let added: usize = more.len();
    assert(more.deep_view().len() == added);
    let mut out = copy_rows(rows);
    append_deep(&mut out, more);
    Ok((out, added))
}

// ── blank cells filled ──────────────────────────────────────────────────────

/// The last cell that is not blank in column `c` of the rows from `start` up to `n`;
/// null where there is none.
pub open spec fn last_filled(rows: RowsView, start: int, c: int, n: int) -> Json
    decreases n - start,
{
    if n <= start || n > rows.len() {
        Json::Null
    } else if !is_blank(cell_at(rows[n - 1], c)) {
        cell_at(rows[n - 1], c)
    } else {
        last_filled(rows, start, c, n - 1)
    }
}

/// What a blank cell of row `i` is filled with: a constant, or the last cell above it
/// that is not blank.
pub open spec fn filling(
    rows: RowsView,
    start: int,
    constant: Option<Json>,
    i: int,
    c: int,
) -> Json {
    match constant {
        Some(v) => v,
        None => last_filled(rows, start, c, i),
    }
}

/// Cell `c` of data row `i` after filling the blank cells of the listed columns.
pub open spec fn filled_cell(
    rows: RowsView,
    start: int,
    cols: Seq<usize>,
    constant: Option<Json>,
    i: int,
    c: int,
) -> Json {
    let cell = cell_at(rows[i], c);
    if !is_blank(cell) || !cols.contains(c as usize) {
        cell
    } else if constant is None && last_filled(rows, start, c, i) is Null {
        cell
    } else {
        filling(rows, start, constant, i, c)
    }
}

/// A sheet after filling: the data rows are as wide as the widest row.
pub open spec fn filled_rows(
    rows: RowsView,
    start: int,
    cols: Seq<usize>,
    constant: Option<Json>,
) -> RowsView {
    Seq::new(
        rows.len(),
        |i: int|
            if i < start {
                rows[i]
            } else {
                Seq::new(
                    widest(rows, rows.len()),
                    |c: int| filled_cell(rows, start, cols, constant, i, c),
                )
            },
    )
}

/// How many fillings the first `n` listed columns of row `i` take. A column that is
/// listed again is filled again only with a constant that is blank itself.
pub open spec fn fillings_in_row(
    rows: RowsView,
    start: int,
    cols: Seq<usize>,
    constant: Option<Json>,
    i: int,
    n: nat,
) -> nat
    decreases n,
{
    if n == 0 || n > cols.len() {
        0
    } else {
        let c = cols[n - 1] as int;
        let again = cols.take(n - 1).contains(cols[n - 1]);
        let hit = c < widest(rows, rows.len()) && is_blank(cell_at(rows[i], c)) && match constant {
            Some(v) => !again || is_blank(v),
            None => !again && !(last_filled(rows, start, c, i) is Null),
        };
        fillings_in_row(rows, start, cols, constant, i, (n - 1) as nat) + if hit {
            1nat
        } else {
            0
        }
    }
}

/// How many fillings the rows from `start` up to `n` take.
pub open spec fn fillings(
    rows: RowsView,
    start: int,
    cols: Seq<usize>,
    constant: Option<Json>,
    n: int,
) -> nat
    decreases n - start,
{
    if n <= start || n > rows.len() {
        0
    } else {
        fillings(rows, start, cols, constant, n - 1) + fillings_in_row(
            rows,
            start,
            cols,
            constant,
            n - 1,
            cols.len(),
        )
    }
}

pub open spec fn opt_value(v: Option<Value>) -> Option<Json> {
    match v {
        Some(x) => Some(x.deep_view()),
        None => None,
    }
}

fn listed_before(cols: &Vec<usize>, n: usize, c: usize) -> (r: bool)
    requires
        n <= cols@.len(),
    ensures
        r == cols@.take(n as int).contains(c),
{
    let mut i: usize = 0;
    while i < n
        invariant
            i <= n <= cols@.len(),
            forall|k: int| 0 <= k < i ==> cols@[k] != c,
        decreases n - i,
    {
        if cols[i] == c {
            assert(cols@.take(n as int)[i as int] == c);
            return true;
        }
        i = i + 1;
    }
    assert forall|k: int| 0 <= k < n implies cols@.take(n as int)[k] != c by {}
    false
}

proof fn lemma_last_filled(rows: RowsView, start: int, c: int, n: int)
    requires
        0 <= start,
    ensures
        last_filled(rows, start, c, n) is Null || !is_blank(last_filled(rows, start, c, n)),
    decreases n - start,
{
    if start < n <= rows.len() {
        lemma_last_filled(rows, start, c, n - 1);
    }
}

fn count_fillings(
    row: &Vec<Value>,
    last: &Vec<Value>,
    cols: &Vec<usize>,
    constant: &Option<Value>,
    count: u64,
    Ghost(so_far): Ghost<nat>,
    Ghost(rows): Ghost<RowsView>,
    Ghost(start): Ghost<int>,
    Ghost(i): Ghost<int>,
) -> (r: u64)
    requires
        0 <= i < rows.len(),
        row.deep_view() == rows[i],
        last.deep_view() == Seq::new(
            widest(rows, rows.len()),
            |c: int| last_filled(rows, start, c, i),
        ),
        count == in_64_bits(so_far),
    ensures
        r == in_64_bits(
            so_far + fillings_in_row(rows, start, cols@, opt_value(*constant), i, cols@.len()),
        ),
{
    let ghost cv = opt_value(*constant);
    let mut out: u64 = count;
    let mut k: usize = 0;
    assert(last.deep_view().len() == last@.len());
    while k < cols.len()
        invariant
            k <= cols@.len(),
            0 <= i < rows.len(),
            row.deep_view() == rows[i],
            last@.len() == widest(rows, rows.len()),
            last.deep_view() == Seq::new(
                widest(rows, rows.len()),
                |c: int| last_filled(rows, start, c, i),
            ),
            cv == opt_value(*constant),
            out == in_64_bits(so_far + fillings_in_row(rows, start, cols@, cv, i, k as nat)),
        decreases cols@.len() - k,
    {
        let c: usize = cols[k];
        let again = listed_before(cols, k, c);
        let mut hit = false;
        if c < last.len() {
            assert(last.deep_view()[c as int] == last@[c as int].deep_view());
            if sheet_cell_blank(&copy_cell(row, c)) {
                hit = match constant {
                    Some(v) => !again || sheet_cell_blank(v),
                    None => !again && !last[c].is_null(),
                };
            }
        }
        if hit {
            out = add_count(
                out,
                1,
                Ghost((so_far + fillings_in_row(rows, start, cols@, cv, i, k as nat)) as nat),
                Ghost(1),
            );
        }
        k = k + 1;
    }
    out
}

fn fill_row(
    row: &Vec<Value>,
    last: &Vec<Value>,
    cols: &Vec<usize>,
    constant: &Option<Value>,
    Ghost(rows): Ghost<RowsView>,
    Ghost(start): Ghost<int>,
    Ghost(i): Ghost<int>,
) -> (r: (Vec<Value>, Vec<Value>))
    requires
        0 <= start <= i < rows.len(),
        row.deep_view() == rows[i],
        last.deep_view() == Seq::new(
            widest(rows, rows.len()),
            |c: int| last_filled(rows, start, c, i),
        ),
    ensures
        r.0.deep_view() == Seq::new(
            widest(rows, rows.len()),
            |c: int| filled_cell(rows, start, cols@, opt_value(*constant), i, c),
        ),
        r.1.deep_view() == Seq::new(
            widest(rows, rows.len()),
            |c: int| last_filled(rows, start, c, i + 1),
        ),
{
    let ghost cv = opt_value(*constant);
    let ghost want = Seq::new(
        widest(rows, rows.len()),
        |c: int| filled_cell(rows, start, cols@, cv, i, c),
    );
    let ghost next = Seq::new(widest(rows, rows.len()), |c: int| last_filled(rows, start, c, i + 1));
    let mut out: Vec<Value> = Vec::new();
    let mut seen: Vec<Value> = Vec::new();
    let mut c: usize = 0;
    assert(last.deep_view().len() == last@.len());
    while c < last.len()
        invariant
            c <= last@.len(),
            0 <= start <= i < rows.len(),
            row.deep_view() == rows[i],
            last@.len() == widest(rows, rows.len()),
            last.deep_view() == Seq::new(
                widest(rows, rows.len()),
                |c: int| last_filled(rows, start, c, i),
            ),
            cv == opt_value(*constant),
            want == Seq::new(
                widest(rows, rows.len()),
                |c: int| filled_cell(rows, start, cols@, cv, i, c),
            ),
            next == Seq::new(
                widest(rows, rows.len()),
                |c: int| last_filled(rows, start, c, i + 1),
            ),
            out.deep_view() == want.take(c as int),
            seen.deep_view() == next.take(c as int),
        decreases last@.len() - c,
    {
        assert(last.deep_view()[c as int] == last@[c as int].deep_view());
        let cell = copy_cell(row, c);
        let blank = sheet_cell_blank(&cell);
        if blank {
            push_deep(&mut seen, last[c].dup());
        } else {
            push_deep(&mut seen, cell.dup());
        }
        let put = if !blank || !is_listed(cols, c) {
            cell
        } else {
            match constant {
                Some(v) => v.dup(),
                None => if last[c].is_null() {
                    cell
                } else {
                    last[c].dup()
                },
            }
        };
        assert(put.deep_view() == want[c as int]);
        push_deep(&mut out, put);
        c = c + 1;
        assert(out.deep_view() =~= want.take(c as int));
        assert(seen.deep_view() =~= next.take(c as int));
    }
    assert(want.take(c as int) =~= want);
    assert(next.take(c as int) =~= next);
    (out, seen)
}

/// The columns that are filled: those that options list, or all.
pub open spec fn columns_to_fill(opts: Json, header: bool, rows: RowsView) -> Result<
    Seq<usize>,
    Seq<char>,
> {
    match compared_columns(opts, header, rows) {
        Ok(Some(c)) => Ok(c),
        Ok(None) => Ok(Seq::new(widest(rows, rows.len()), |i: int| i as usize)),
        Err(e) => Err(e),
    }
}

pub fn read_columns_to_fill(opts: &Value, header: bool, rows: &Rows) -> (r: Result<
    Vec<usize>,
    String,
>)
    ensures
        res_cols(r) == columns_to_fill(opts.deep_view(), header, rows.deep_view()),
{
    match read_compared(opts, header, rows) {
        Err(e) => Err(e),
        Ok(c) => match c {
            Some(v) => Ok(v),
            None => {
                assert(rows.deep_view().len() == rows@.len());
                let n: usize = count_columns(rows);
                let mut all: Vec<usize> = Vec::new();
                let mut i: usize = 0;
                while i < n
                    invariant
                        i <= n,
                        all@ == Seq::new(i as nat, |k: int| k as usize),
                    decreases n - i,
                {
                    all.push(i);
                    i = i + 1;
                    assert(all@ =~= Seq::new(i as nat, |k: int| k as usize));
                }
                Ok(all)
            },
        },
    }
}

/// Fills the blank cells of columns with a constant, or with the last cell above that
/// is not blank; says how many.
pub fn op_sheet_fill(rows: &Rows, header: bool, cols: &Vec<usize>, constant: &Option<Value>) -> (r: (
    Rows,
    u64,
))
    ensures
        ({
            let rv = rows.deep_view();
            let start = data_start(header, rv);
            &&& r.0.deep_view() == filled_rows(rv, start, cols@, opt_value(*constant))
            &&& r.1 == in_64_bits(
                fillings(rv, start, cols@, opt_value(*constant), rv.len() as int),
            )
        }),
{
    let start = first_data_row(header, rows);
    let ghost rv = rows.deep_view();
    let ghost cv = opt_value(*constant);
    let ghost all = filled_rows(rv, start as int, cols@, cv);
    assert(rv.len() == rows@.len());
    let width: usize = count_columns(rows);
    let none = |c: usize| -> (v: Value)
        ensures
            v.deep_view() == Json::Null,
        { Value::Null };
    let ghost g = |c: int| Json::Null;
    let mut last = tabulate(width, &none, Ghost(g));
    assert(last.deep_view() =~= Seq::new(
        widest(rv, rv.len()),
        |c: int| last_filled(rv, start as int, c, start as int),
    ));
    let mut out: Rows = Vec::new();
    let mut count: u64 = 0;
    let mut i: usize = 0;
    while i < rows.len()
        invariant
            i <= rows@.len(),
            rv == rows.deep_view(),
            rv.len() == rows@.len(),
            start <= rows@.len(),
            cv == opt_value(*constant),
            all == filled_rows(rv, start as int, cols@, cv),
            out.deep_view() == all.take(i as int),
            i <= start ==> last.deep_view() == Seq::new(
                widest(rv, rv.len()),
                |c: int| last_filled(rv, start as int, c, start as int),
            ),
            i >= start ==> last.deep_view() == Seq::new(
                widest(rv, rv.len()),
                |c: int| last_filled(rv, start as int, c, i as int),
            ),
            count == in_64_bits(fillings(rv, start as int, cols@, cv, i as int)),
        decreases rows@.len() - i,
    {
        assert(rv[i as int] == rows@[i as int].deep_view());
        if i < start {
            push_deep(&mut out, copy_values(&rows[i]));
        } else {
            count =
            count_fillings(
                &rows[i],
                &last,
                cols,
                constant,
                count,
                Ghost(fillings(rv, start as int, cols@, cv, i as int)),
                Ghost(rv),
                Ghost(start as int),
                Ghost(i as int),
            );
            let (row, seen) = fill_row(
                &rows[i],
                &last,
                cols,
                constant,
                Ghost(rv),
                Ghost(start as int),
                Ghost(i as int),
            );
            last = seen;
            assert(row.deep_view() =~= all[i as int]);
            push_deep(&mut out, row);
        }
        i = i + 1;
        assert(out.deep_view() =~= all.take(i as int));
    }
    assert(all.take(i as int) =~= all);
    (out, count)
}

/// Where values are carried down, a filled column has no blank cell below one that is
/// not blank.
pub proof fn filled_down_has_no_gaps(
    rows: RowsView,
    start: int,
    cols: Seq<usize>,
    c: int,
    i: int,
    k: int,
)
    requires
        0 <= start <= i <= k < rows.len(),
        0 <= c < widest(rows, rows.len()),
        widest(rows, rows.len()) <= usize::MAX,
        cols.contains(c as usize),
        !is_blank(cell_at(rows[i], c)),
    ensures
        !is_blank(filled_rows(rows, start, cols, None)[k][c]),
{
    lemma_last_filled(rows, start, c, k);
    if k > i {
        lemma_last_there(rows, start, c, i, k);
    }
}

proof fn lemma_last_there(rows: RowsView, start: int, c: int, i: int, n: int)
    requires
        0 <= start <= i < n <= rows.len(),
        !is_blank(cell_at(rows[i], c)),
    ensures
        !(last_filled(rows, start, c, n) is Null),
    decreases n - i,
{
    if n - 1 > i {
        lemma_last_there(rows, start, c, i, n - 1);
    }
}

// ── empty rows and columns ──────────────────────────────────────────────────

/// Whether the first `w` cells of a row are blank.
pub open spec fn is_blank_row(row: Seq<Json>, w: nat) -> bool {
    forall|c: int| 0 <= c < w ==> is_blank(#[trigger] cell_at(row, c))
}

/// Whether column `c` stays: all columns do unless empty ones are dropped, and then
/// those that have a data cell that is not blank; all where there is no data.
pub open spec fn column_stays(rows: RowsView, start: int, drop_cols: bool, c: int) -> bool {
    !drop_cols || start >= rows.len() || exists|i: int|
        start <= i < rows.len() && !is_blank(cell_at(#[trigger] rows[i], c))
}

/// The columns below `n` that stay.
pub open spec fn staying_columns(rows: RowsView, start: int, drop_cols: bool, n: nat) -> Seq<usize>
    decreases n,
{
    if n == 0 {
        Seq::empty()
    } else {
        let before = staying_columns(rows, start, drop_cols, (n - 1) as nat);
        if column_stays(rows, start, drop_cols, n - 1) {
            before.push((n - 1) as usize)
        } else {
            before
        }
    }
}

/// A row reduced to the columns that stay, where some do not.
pub open spec fn reduced_row(row: Seq<Json>, cols: Seq<usize>, w: nat) -> Seq<Json> {
    if cols.len() == w {
        row
    } else {
        chosen_cells(row, cols)
    }
}

/// The first `n` rows without empty ones, each reduced to the columns that stay; the
/// header row always stays.
pub open spec fn without_empty(
    rows: RowsView,
    start: int,
    drop_rows: bool,
    cols: Seq<usize>,
    n: nat,
) -> RowsView
    decreases n,
{
    if n == 0 || n > rows.len() {
        Seq::empty()
    } else {
        let before = without_empty(rows, start, drop_rows, cols, (n - 1) as nat);
        let w = widest(rows, rows.len());
        if drop_rows && n - 1 >= start && is_blank_row(rows[n - 1], w) {
            before
        } else {
            before.push(reduced_row(rows[n - 1], cols, w))
        }
    }
}

fn blank_row(row: &Vec<Value>, w: usize) -> (r: bool)
    ensures
        r == is_blank_row(row.deep_view(), w as nat),
{
    let mut c: usize = 0;
    while c < w
        invariant
            c <= w,
            forall|k: int| 0 <= k < c ==> is_blank(#[trigger] cell_at(row.deep_view(), k)),
        decreases w - c,
    {
        if !sheet_cell_blank(&copy_cell(row, c)) {
            return false;
        }
        c = c + 1;
    }
    true
}

fn stays(rows: &Rows, start: usize, drop_cols: bool, c: usize) -> (r: bool)
    requires
        start <= rows@.len(),
    ensures
        r == column_stays(rows.deep_view(), start as int, drop_cols, c as int),
{
    let ghost rv = rows.deep_view();
    assert(rv.len() == rows@.len());
    if !drop_cols || start >= rows.len() {
        return true;
    }
    let mut i: usize = start;
    while i < rows.len()
        invariant
            start <= i <= rows@.len(),
            rv == rows.deep_view(),
            forall|k: int| start <= k < i ==> is_blank(cell_at(#[trigger] rv[k], c as int)),
        decreases rows@.len() - i,
    {
        assert(rv[i as int] == rows@[i as int].deep_view());
        if !sheet_cell_blank(&copy_cell(&rows[i], c)) {
            return true;
        }
        i = i + 1;
    }
    false
}

/// Drops empty rows and columns; says how many of each.
pub fn op_sheet_drop_empty(rows: &Rows, header: bool, drop_rows: bool, drop_cols: bool) -> (r: (
    Rows,
    usize,
    usize,
))
    ensures
        ({
            let rv = rows.deep_view();
            let start = data_start(header, rv);
            let w = widest(rv, rv.len());
            let cols = staying_columns(rv, start, drop_cols, w);
            let left = without_empty(rv, start, drop_rows, cols, rv.len());
            &&& r.0.deep_view() == left
            &&& r.1 == rv.len() - left.len()
            &&& r.2 == w - cols.len()
        }),
{
    let start = first_data_row(header, rows);
    let ghost rv = rows.deep_view();
    assert(rv.len() == rows@.len());
    let w: usize = count_columns(rows);
    let mut cols: Vec<usize> = Vec::new();
    let mut c: usize = 0;
    while c < w
        invariant
            c <= w,
            start <= rows@.len(),
            rv == rows.deep_view(),
            cols@.len() <= c,
            cols@ == staying_columns(rv, start as int, drop_cols, c as nat),
        decreases w - c,
    {
        if stays(rows, start, drop_cols, c) {
            cols.push(c);
        }
        c = c + 1;
    }
    let mut out: Rows = Vec::new();
    let mut i: usize = 0;
    assert(out.deep_view() =~= Seq::<Seq<Json>>::empty());
    while i < rows.len()
        invariant
            i <= rows@.len(),
            rv == rows.deep_view(),
            w == widest(rv, rv.len()),
            out@.len() <= i,
            out.deep_view() == without_empty(rv, start as int, drop_rows, cols@, i as nat),
        decreases rows@.len() - i,
    {
        assert(rv[i as int] == rows@[i as int].deep_view());
        let gone = drop_rows && i >= start && blank_row(&rows[i], w);
        if !gone {
            if cols.len() == w {
                push_deep(&mut out, copy_values(&rows[i]));
            } else {
                push_deep(&mut out, crate::reshape::choose_cells(&rows[i], &cols));
            }
        }
        i = i + 1;
    }
    let left: usize = out.len();
    assert(out.deep_view().len() == left);
    (out, rows.len() - left, w - cols.len())
}

// ── a header on top ─────────────────────────────────────────────────────────

/// Puts a header row on top of a sheet.
pub fn op_sheet_add_header(rows: &Rows, names: &Vec<Value>) -> (r: Rows)
    ensures
        r.deep_view() == seq![names.deep_view()] + rows.deep_view(),
{
    let mut out: Rows = Vec::new();
    push_deep(&mut out, copy_values(names));
    append_deep(&mut out, copy_rows(rows));
    assert(out.deep_view() =~= seq![names.deep_view()] + rows.deep_view());
    out
}

// ── computed columns ────────────────────────────────────────────────────────

/// Whether an arithmetic operation is known.
pub open spec fn is_calc(op: Seq<char>) -> bool {
    op == "+"@ || op == "-"@ || op == "*"@ || op == "/"@ || op == "%"@
}

/// The operation that options name.
pub fn check_calc(op: &str) -> (r: Result<(), String>)
    ensures
        r is Ok <==> is_calc(op@),
        r is Err ==> r->Err_0@ == "unknown op: "@ + op@ + " (one of + - * / %)"@,
{
    if same(op, "+") || same(op, "-") || same(op, "*") || same(op, "/") || same(op, "%") {
        Ok(())
    } else {
        Err(crate::text::concat3("unknown op: ", op, " (one of + - * / %)"))
    }
}

/// The operands of a computed cell: both numbers, and none where one is missing or
/// would be divided by zero.
pub open spec fn operands(l: Option<u64>, r: Option<u64>, op: Seq<char>) -> Option<(u64, u64)> {
    if l is None || r is None {
        None
    } else if (op == "/"@ || op == "%"@) && equal(r->0, 0) {
        None
    } else {
        Some((l->0, r->0))
    }
}

/// Operand `i` of the right side: the constant, or the reading of the column.
pub open spec fn right_operand(
    right: Seq<Option<u64>>,
    constant: Option<u64>,
    i: int,
) -> Option<u64> {
    match constant {
        Some(k) => Some(k),
        None => if i < right.len() {
            right[i]
        } else {
            None
        },
    }
}

/// The operands of each data row of a computed column.
pub fn op_sheet_calc(
    left: &Vec<Option<u64>>,
    right: &Vec<Option<u64>>,
    constant: Option<u64>,
    op: &str,
) -> (r: Vec<Option<(u64, u64)>>)
    ensures
        r@ == Seq::new(
            left@.len(),
            |i: int| operands(left@[i], right_operand(right@, constant, i), op@),
        ),
{
    let ghost all = Seq::new(
        left@.len(),
        |i: int| operands(left@[i], right_operand(right@, constant, i), op@),
    );
    let divides = same(op, "/") || same(op, "%");
    let mut out: Vec<Option<(u64, u64)>> = Vec::new();
    let mut i: usize = 0;
    while i < left.len()
        invariant
            i <= left@.len(),
            divides == (op@ == "/"@ || op@ == "%"@),
            all == Seq::new(
                left@.len(),
                |i: int| operands(left@[i], right_operand(right@, constant, i), op@),
            ),
            out@ == all.take(i as int),
        decreases left@.len() - i,
    {
        let r = match constant {
            Some(k) => Some(k),
            None => if i < right.len() {
                right[i]
            } else {
                None
            },
        };
        let pair = match (left[i], r) {
            (Some(a), Some(b)) => if divides && bits_equal(b, 0) {
                None
            } else {
                Some((a, b))
            },
            _ => None,
        };
        out.push(pair);
        i = i + 1;
        assert(out@ =~= all.take(i as int));
    }
    assert(all.take(i as int) =~= all);
    out
}

// ── what tidying does ───────────────────────────────────────────────────────

/// Whether rows show the same in each of some columns.
pub open spec fn show_the_same(a: Seq<Json>, b: Seq<Json>, cols: Seq<usize>) -> bool {
    forall|k: int|
        0 <= k < cols.len() ==> shown_in(seq![a], 0, (#[trigger] cols[k]) as int) == shown_in(
            seq![b],
            0,
            cols[k] as int,
        )
}

proof fn lemma_same_texts(a: Seq<Json>, b: Seq<Json>, cols: Seq<usize>, n: nat)
    requires
        show_the_same(a, b, cols),
        n <= cols.len(),
    ensures
        listed_texts(a, cols, false, n) == listed_texts(b, cols, false, n),
    decreases n,
{
    if n > 0 {
        lemma_same_texts(a, b, cols, (n - 1) as nat);
        assert(shown_in(seq![a], 0, cols[n - 1] as int) == shown_in(
            seq![b],
            0,
            cols[n - 1] as int,
        ));
    }
}

/// Rows that show the same in the columns by which they are compared are alike, and by a
/// single column only such rows are; without columns only rows with the same JSON text are.
pub proof fn rows_are_alike_by_what_they_show(a: Seq<Json>, b: Seq<Json>, cols: Seq<usize>)
    ensures
        show_the_same(a, b, cols) ==> row_key(a, Some(cols)) == row_key(b, Some(cols)),
        cols.len() == 1 && row_key(a, Some(cols)) == row_key(b, Some(cols)) ==> show_the_same(
            a,
            b,
            cols,
        ),
        row_key(a, None) == row_key(b, None) <==> json_text(Json::Array(a)) == json_text(
            Json::Array(b),
        ),
{
    if show_the_same(a, b, cols) {
        lemma_same_texts(a, b, cols, cols.len());
    }
    if cols.len() == 1 {
        let ta = listed_texts(a, cols, false, 1);
        let tb = listed_texts(b, cols, false, 1);
        assert(listed_texts(a, cols, false, 0).len() == 0);
        assert(listed_texts(b, cols, false, 0).len() == 0);
        assert(ta.len() == 1 && ta[0] == shown_in(seq![a], 0, cols[0] as int));
        assert(tb.len() == 1 && tb[0] == shown_in(seq![b], 0, cols[0] as int));
    }
}

proof fn lemma_kept_at(data: RowsView, keys: Seq<Seq<char>>, keep_last: bool, n: nat) -> (at: Seq<int>)
    requires
        keys.len() == data.len(),
        n <= data.len(),
    ensures
        goes_down(at),
        at.len() == kept_rows(data, keys, keep_last, n).len(),
        forall|i: int|
            0 <= i < at.len() ==> 0 <= #[trigger] at[i] < n && is_kept(keys, keep_last, at[i])
                && kept_rows(data, keys, keep_last, n)[i] == data[at[i]],
        forall|r: int|
            0 <= r < n && #[trigger] is_kept(keys, keep_last, r) ==> at.contains(r),
    decreases n,
{
    if n == 0 {
        Seq::empty()
    } else {
        let before = lemma_kept_at(data, keys, keep_last, (n - 1) as nat);
        let was = kept_rows(data, keys, keep_last, (n - 1) as nat);
        if is_kept(keys, keep_last, n - 1) {
            let at = before.push(n - 1);
            let now = was.push(data[n - 1]);
            assert forall|i: int| 0 <= i < at.len() implies 0 <= #[trigger] at[i] < n && is_kept(
                keys,
                keep_last,
                at[i],
            ) && now[i] == data[at[i]] by {
                if i < before.len() {
                    assert(at[i] == before[i]);
                }
            }
            assert forall|r: int|
                0 <= r < n && #[trigger] is_kept(keys, keep_last, r) implies at.contains(r) by {
                if r < n - 1 {
                    assert(before.contains(r));
                    let i = choose|i: int| 0 <= i < before.len() && before[i] == r;
                    assert(at[i] == r);
                } else {
                    assert(at[before.len() as int] == r);
                }
            }
            at
        } else {
            before
        }
    }
}

/// Of rows that are alike just the first one stays, or the last one where that is asked for,
/// and the rows that stay keep their order.
pub proof fn of_rows_alike_one_stays(
    data: RowsView,
    cols: Option<Seq<usize>>,
    keep_last: bool,
) -> (at: Seq<int>)
    ensures
        ({
            let kept = deduped(data, cols, keep_last);
            &&& goes_down(at)
            &&& kept.len() == at.len()
            &&& forall|i: int|
                0 <= i < at.len() ==> 0 <= #[trigger] at[i] < data.len() && kept[i] == data[at[i]]
            &&& forall|i: int, r: int|
                #![trigger at[i], data[r]]
                0 <= i < at.len() && 0 <= r < data.len() && row_key(data[r], cols) == row_key(
                    data[at[i]],
                    cols,
                ) ==> if keep_last {
                    r <= at[i]
                } else {
                    r >= at[i]
                }
            &&& forall|r: int|
                0 <= r < data.len() ==> exists|i: int|
                    0 <= i < at.len() && row_key(data[#[trigger] at[i]], cols) == row_key(
                        #[trigger] data[r],
                        cols,
                    )
        }),
{
    let keys = row_keys(data, cols);
    let at = lemma_kept_at(data, keys, keep_last, data.len());
    assert forall|i: int, r: int|
        #![trigger at[i], data[r]]
        0 <= i < at.len() && 0 <= r < data.len() && row_key(data[r], cols) == row_key(
            data[at[i]],
            cols,
        ) implies if keep_last {
        r <= at[i]
    } else {
        r >= at[i]
    } by {
        assert(is_kept(keys, keep_last, at[i]));
        assert(keys[r] == row_key(data[r], cols));
        assert(keys[at[i]] == row_key(data[at[i]], cols));
    }
    assert forall|r: int| 0 <= r < data.len() implies exists|i: int|
        0 <= i < at.len() && row_key(data[#[trigger] at[i]], cols) == row_key(
            #[trigger] data[r],
            cols,
        ) by {
        let q = lemma_one_is_kept(keys, keep_last, r);
        assert(at.contains(q));
        let i = choose|i: int| 0 <= i < at.len() && at[i] == q;
        assert(keys[q] == row_key(data[at[i]], cols));
        assert(keys[r] == row_key(data[r], cols));
    }
    at
}

proof fn lemma_one_is_kept(keys: Seq<Seq<char>>, keep_last: bool, r: int) -> (q: int)
    requires
        0 <= r < keys.len(),
    ensures
        0 <= q < keys.len(),
        keys[q] == keys[r],
        is_kept(keys, keep_last, q),
    decreases
            (if keep_last {
                keys.len() - r
            } else {
                r
            }),
{
    if is_kept(keys, keep_last, r) {
        r
    } else if keep_last {
        let k = choose|k: int| r < k < keys.len() && #[trigger] keys[k] == keys[r];
        lemma_one_is_kept(keys, keep_last, k)
    } else {
        let k = choose|k: int| 0 <= k < r && #[trigger] keys[k] == keys[r];
        lemma_one_is_kept(keys, keep_last, k)
    }
}

proof fn lemma_is_empty(rows: RowsView, r: int, c: int)
    ensures
        is_blank(cell_at(rows[r], c)) == is_empty_in(rows, r, c),
{
    if 0 <= c < rows[r].len() {
        match rows[r][c] {
            Json::Text(t) => lemma_trimmed_away(t),
            _ => {},
        }
    }
}

proof fn lemma_nearest_above(rows: RowsView, start: int, c: int, n: int)
    requires
        0 <= start <= n <= rows.len(),
    ensures
        last_filled(rows, start, c, n) is Null ==> forall|r: int|
            start <= r < n ==> #[trigger] is_empty_in(rows, r, c),
        !(last_filled(rows, start, c, n) is Null) ==> exists|k: int|
            start <= k < n && !(#[trigger] is_empty_in(rows, k, c)) && last_filled(
                rows,
                start,
                c,
                n,
            ) == held_in(rows, k, c) && forall|r: int|
                k < r < n ==> #[trigger] is_empty_in(rows, r, c),
    decreases n - start,
{
    if n > start {
        lemma_is_empty(rows, n - 1, c);
        if is_empty_in(rows, n - 1, c) {
            lemma_nearest_above(rows, start, c, n - 1);
            if !(last_filled(rows, start, c, n) is Null) {
                let k = choose|k: int|
                    start <= k < n - 1 && !(#[trigger] is_empty_in(rows, k, c)) && last_filled(
                        rows,
                        start,
                        c,
                        n - 1,
                    ) == held_in(rows, k, c) && forall|r: int|
                        k < r < n - 1 ==> #[trigger] is_empty_in(rows, r, c);
                assert(!is_empty_in(rows, k, c));
            }
        } else {
            assert(last_filled(rows, start, c, n) == held_in(rows, n - 1, c));
        }
    }
}

/// Filling changes the empty cells of the listed columns alone: to the constant, or without
/// one to the nearest cell above that holds something; where none does they stay.
pub proof fn filling_fills_what_is_empty(
    rows: RowsView,
    header: bool,
    cols: Seq<usize>,
    constant: Option<Json>,
    i: int,
    c: int,
)
    requires
        0 <= i < rows.len(),
        0 <= c <= usize::MAX,
    ensures
        ({
            let out = filled_rows(rows, data_start(header, rows), cols, constant);
            let start: int = if header && rows.len() > 0 {
                1
            } else {
                0
            };
            let listed = exists|k: int| 0 <= k < cols.len() && cols[k] == c;
            &&& out.len() == rows.len()
            &&& i < start ==> out[i] == rows[i]
            &&& i >= start && c < out[i].len() ==> {
                &&& !is_empty_in(rows, i, c) || !listed ==> out[i][c] == held_in(rows, i, c)
                &&& is_empty_in(rows, i, c) && listed ==> match constant {
                    Some(v) => out[i][c] == v,
                    None => {
                        ||| out[i][c] == held_in(rows, i, c) && forall|r: int|
                            start <= r < i ==> #[trigger] is_empty_in(rows, r, c)
                        ||| exists|k: int|
                            start <= k < i && !(#[trigger] is_empty_in(rows, k, c)) && out[i][c]
                                == held_in(rows, k, c) && forall|r: int|
                                k < r < i ==> #[trigger] is_empty_in(rows, r, c)
                    },
                }
            }
        }),
{
    let start = data_start(header, rows);
    lemma_is_empty(rows, i, c);
    if i >= start {
        lemma_nearest_above(rows, start, c, i);
        assert(cols.contains(c as usize) == exists|k: int| 0 <= k < cols.len() && cols[k] == c) by {
            if cols.contains(c as usize) {
                let k = choose|k: int| 0 <= k < cols.len() && cols[k] == c as usize;
                assert(cols[k] == c);
            }
        }
    }
}

/// Whether a row stays where empty ones are dropped.
spec fn row_stays(rows: RowsView, start: int, drop_rows: bool, r: int) -> bool {
    !(drop_rows && r >= start && is_blank_row(rows[r], widest(rows, rows.len())))
}

proof fn lemma_not_empty(
    rows: RowsView,
    start: int,
    drop_rows: bool,
    cols: Seq<usize>,
    n: nat,
) -> (at: Seq<int>)
    requires
        n <= rows.len(),
    ensures
        goes_down(at),
        at.len() == without_empty(rows, start, drop_rows, cols, n).len(),
        forall|i: int|
            0 <= i < at.len() ==> 0 <= #[trigger] at[i] < n && row_stays(
                rows,
                start,
                drop_rows,
                at[i],
            ) && without_empty(
                rows,
                start,
                drop_rows,
                cols,
                n,
            )[i] == reduced_row(rows[at[i]], cols, widest(rows, rows.len())),
        forall|r: int|
            0 <= r < n && #[trigger] row_stays(rows, start, drop_rows, r) ==> at.contains(r),
    decreases n,
{
    if n == 0 {
        Seq::empty()
    } else {
        let w = widest(rows, rows.len());
        let before = lemma_not_empty(rows, start, drop_rows, cols, (n - 1) as nat);
        let was = without_empty(rows, start, drop_rows, cols, (n - 1) as nat);
        if drop_rows && n - 1 >= start && is_blank_row(rows[n - 1], w) {
            before
        } else {
            let at = before.push(n - 1);
            let now = was.push(reduced_row(rows[n - 1], cols, w));
            assert forall|i: int| 0 <= i < at.len() implies 0 <= #[trigger] at[i] < n && row_stays(
                rows,
                start,
                drop_rows,
                at[i],
            ) && now[i] == reduced_row(
                rows[at[i]],
                cols,
                w,
            ) by {
                if i < before.len() {
                    assert(at[i] == before[i]);
                }
            }
            assert forall|r: int|
                0 <= r < n && #[trigger] row_stays(rows, start, drop_rows, r) implies at.contains(
                r,
            ) by {
                if r < n - 1 {
                    assert(before.contains(r));
                    let i = choose|i: int| 0 <= i < before.len() && before[i] == r;
                    assert(at[i] == r);
                } else {
                    assert(at[before.len() as int] == r);
                }
            }
            at
        }
    }
}

proof fn lemma_staying(rows: RowsView, start: int, drop_cols: bool, n: nat)
    requires
        n <= usize::MAX,
    ensures
        forall|i: int|
            0 <= i < staying_columns(rows, start, drop_cols, n).len() ==> (
            #[trigger] staying_columns(rows, start, drop_cols, n)[i]) < n && column_stays(
                rows,
                start,
                drop_cols,
                staying_columns(rows, start, drop_cols, n)[i] as int,
            ),
        forall|i: int, j: int|
            0 <= i < j < staying_columns(rows, start, drop_cols, n).len() ==> (
            #[trigger] staying_columns(rows, start, drop_cols, n)[i]) < (
            #[trigger] staying_columns(rows, start, drop_cols, n)[j]),
        forall|c: int|
            0 <= c < n && #[trigger] column_stays(rows, start, drop_cols, c) ==> staying_columns(
                rows,
                start,
                drop_cols,
                n,
            ).contains(c as usize),
    decreases n,
{
    if n > 0 {
        lemma_staying(rows, start, drop_cols, (n - 1) as nat);
        let before = staying_columns(rows, start, drop_cols, (n - 1) as nat);
        let now = staying_columns(rows, start, drop_cols, n);
        assert forall|c: int|
            0 <= c < n && #[trigger] column_stays(
                rows,
                start,
                drop_cols,
                c,
            ) implies now.contains(c as usize) by {
            if c < n - 1 {
                assert(before.contains(c as usize));
                let i = choose|i: int| 0 <= i < before.len() && before[i] == c as usize;
                assert(now[i] == c as usize);
            } else {
                assert(now[before.len() as int] == c as usize);
            }
        }
    }
}

/// Whether a row holds nothing in its first columns.
pub open spec fn is_row_empty(rows: RowsView, r: int, w: nat) -> bool {
    forall|c: int| 0 <= c < w ==> #[trigger] is_empty_in(rows, r, c)
}

/// Whether a column holds nothing in the rows from `start` on.
pub open spec fn is_column_empty(rows: RowsView, start: int, c: int) -> bool {
    forall|r: int| start <= r < rows.len() ==> #[trigger] is_empty_in(rows, r, c)
}

/// Dropping what is empty takes away just the data rows and the columns that hold nothing in
/// any data cell, and only where that is asked for; what stays keeps its order and its cells.
pub proof fn dropping_takes_what_is_empty(
    rows: RowsView,
    header: bool,
    drop_rows: bool,
    drop_cols: bool,
) -> (at: Seq<int>)
    requires
        widest(rows, rows.len()) <= usize::MAX,
    ensures
        ({
            let start = below_header(header, rows);
            let w = widest(rows, rows.len());
            let cols = staying_columns(rows, data_start(header, rows), drop_cols, w);
            let out = without_empty(rows, data_start(header, rows), drop_rows, cols, rows.len());
            &&& goes_down(at)
            &&& out.len() == at.len()
            &&& forall|r: int|
                0 <= r < rows.len() ==> (#[trigger] at.contains(r) <==> !drop_rows || r < start
                    || !is_row_empty(rows, r, w))
            &&& forall|k: int, m: int|
                0 <= k < m < cols.len() ==> #[trigger] cols[k] < #[trigger] cols[m]
            &&& forall|c: int|
                0 <= c < w ==> (#[trigger] cols.contains(c as usize) <==> !drop_cols || rows.len() <= start
                    || !is_column_empty(rows, start, c))
            &&& forall|i: int|
                0 <= i < at.len() ==> 0 <= #[trigger] at[i] < rows.len() && if cols.len() == w {
                    out[i] == rows[at[i]]
                } else {
                    out[i].len() == cols.len() && forall|k: int|
                        0 <= k < cols.len() ==> out[i][k] == held_in(
                            rows,
                            at[i],
                            (#[trigger] cols[k]) as int,
                        )
                }
        }),
{
    let start = below_header(header, rows);
    assert(start == data_start(header, rows));
    let w = widest(rows, rows.len());
    let cols = staying_columns(rows, start, drop_cols, w);
    let at = lemma_not_empty(rows, start, drop_rows, cols, rows.len());
    lemma_staying(rows, start, drop_cols, w);
    assert forall|r: int, c: int|
        0 <= r < rows.len() implies is_blank(#[trigger] cell_at(rows[r], c)) == is_empty_in(
        rows,
        r,
        c,
    ) by {
        lemma_is_empty(rows, r, c);
    }
    assert forall|r: int, c: int| #[trigger] is_empty_in(rows, r, c) == is_blank(
        cell_at(rows[r], c),
    ) by {
        lemma_is_empty(rows, r, c);
    }
    assert forall|r: int| 0 <= r < rows.len() implies (#[trigger] at.contains(r) <==> !drop_rows || r < start
        || !is_row_empty(rows, r, w)) by {
        assert(is_blank_row(rows[r], w) <==> is_row_empty(rows, r, w));
        assert(row_stays(rows, start, drop_rows, r) <==> !drop_rows || r < start || !is_row_empty(
            rows,
            r,
            w,
        ));
        if at.contains(r) {
            let i = choose|i: int| 0 <= i < at.len() && at[i] == r;
            assert(row_stays(rows, start, drop_rows, at[i]));
        }
    }
    assert forall|c: int| 0 <= c < w implies (#[trigger] cols.contains(c as usize) <==> !drop_cols
        || rows.len() <= start || !is_column_empty(rows, start, c)) by {
        assert(column_stays(rows, start, drop_cols, c) <==> !drop_cols || rows.len() <= start
            || !is_column_empty(rows, start, c)) by {
            if !is_column_empty(rows, start, c) {
                let r = choose|r: int|
                    start <= r < rows.len() && !(#[trigger] is_empty_in(rows, r, c));
                assert(!is_blank(cell_at(rows[r], c)));
            }
            if drop_cols && start < rows.len() && column_stays(rows, start, drop_cols, c) {
                let r = choose|r: int|
                    start <= r < rows.len() && !is_blank(cell_at(#[trigger] rows[r], c));
                assert(!is_empty_in(rows, r, c));
            }
        }
        if cols.contains(c as usize) {
            let k = choose|k: int| 0 <= k < cols.len() && cols[k] == c as usize;
            assert(column_stays(rows, start, drop_cols, cols[k] as int));
        }
    }
    let out = without_empty(rows, start, drop_rows, cols, rows.len());
    assert forall|i: int| 0 <= i < at.len() implies 0 <= #[trigger] at[i] < rows.len()
        && if cols.len() == w {
        out[i] == rows[at[i]]
    } else {
        out[i].len() == cols.len() && forall|k: int|
            0 <= k < cols.len() ==> out[i][k] == held_in(rows, at[i], (#[trigger] cols[k]) as int)
    } by {
        assert(out[i] == reduced_row(rows[at[i]], cols, w));
    }
    at
}

/// A computed cell has its operands where both are there and nothing is divided by zero.
pub proof fn operands_are_taken_where_they_are(
    left: Option<u64>,
    right: Option<u64>,
    op: Seq<char>,
)
    ensures
        operands(left, right, op) matches Some(p) ==> left == Some(p.0) && right == Some(p.1),
        left is Some && right is Some && op != "/"@ && op != "%"@ ==> operands(left, right, op)
            is Some,
        left is Some && right is Some && (op == "/"@ || op == "%"@) ==> (operands(left, right, op)
            is None <==> !is_nan(right->0) && rank(right->0) == 0),
{
}

} // verus!
