//! Rows compared with each other and with conditions: sorting, ranking, filtering,
//! counting and looking up.

use crate::columns::{resolve_col, resolved_col, under_header};
use crate::deck::{haystack, in_64_bits, make_haystack};
use crate::deep::{append_deep, push_deep};
use crate::grid::{cell_at, copy_cell, data_start, first_data_row, Rows, RowsView};
use crate::reals::{bits_equal, bits_less, bits_nan, equal, is_nan, less, rank};
use crate::sorting::{
    before, in_order, is_all_of, is_arrangement, is_sorted_copy, is_stable_sort, is_weak_order,
    lemma_all_there, lemma_stable_sort_exists, order_of, stable_order,
};
use crate::text::{
    back_space, chars_of, contains_text, copy_text, find_from, has_text, is_space, lowercase,
    matches_at, same, skip_space, trim, trim_text,
};
use crate::value::{
    as_array, as_text, cell_text, cell_to_string, copy_values, field, flag_at, opt_flag, Json,
    Value,
};
use vstd::prelude::*;

verus! {

// ── numbers beside cells ────────────────────────────────────────────────────

/// For each cell the bits of the number that it reads as, where it reads as one.
pub type Nums = Vec<Vec<Option<u64>>>;

/// The number of a cell; none outside the grid.
pub open spec fn num_at(nums: Seq<Seq<Option<u64>>>, r: int, c: int) -> Option<u64> {
    if 0 <= r < nums.len() && 0 <= c < nums[r].len() {
        nums[r][c]
    } else {
        None
    }
}

pub open spec fn nums_view(nums: Seq<Vec<Option<u64>>>) -> Seq<Seq<Option<u64>>> {
    Seq::new(nums.len(), |i: int| nums[i]@)
}

pub fn number_of(nums: &Nums, r: usize, c: usize) -> (v: Option<u64>)
    ensures
        v == num_at(nums_view(nums@), r as int, c as int),
{
    if r < nums.len() && c < nums[r].len() {
        nums[r][c]
    } else {
        None
    }
}

/// Whether a cell is blank: null, or text that is empty or whitespace.
pub open spec fn is_blank(j: Json) -> bool {
    match j {
        Json::Null => true,
        Json::Text(s) => trim(s).len() == 0,
        _ => false,
    }
}

pub fn sheet_cell_blank(v: &Value) -> (r: bool)
    ensures
        r == is_blank(v.deep_view()),
{
    match v {
        Value::Null => true,
        Value::Text(s) => chars_of(trim_text(s.as_str()).as_str()).len() == 0,
        _ => false,
    }
}

// ── the order of texts ──────────────────────────────────────────────────────

/// Whether `a` comes before `b` character by character, from position `i` on.
pub open spec fn text_less_from(a: Seq<char>, b: Seq<char>, i: int) -> bool
    decreases a.len() - i,
{
    if i < 0 || i >= a.len() {
        i < b.len()
    } else if i >= b.len() {
        false
    } else if a[i] != b[i] {
        a[i] < b[i]
    } else {
        text_less_from(a, b, i + 1)
    }
}

/// Whether one text comes before another.
pub open spec fn text_less(a: Seq<char>, b: Seq<char>) -> bool {
    text_less_from(a, b, 0)
}

pub fn text_before(a: &str, b: &str) -> (r: bool)
    ensures
        r == text_less(a@, b@),
{
    let x = chars_of(a);
    let y = chars_of(b);
    let mut i: usize = 0;
    while i < x.len()
        invariant
            i <= x@.len(),
            x@ == a@,
            y@ == b@,
            text_less(a@, b@) == text_less_from(a@, b@, i as int),
        decreases x@.len() - i,
    {
        if i >= y.len() {
            return false;
        }
        if x[i] != y[i] {
            return x[i] < y[i];
        }
        i = i + 1;
    }
    i < y.len()
}

proof fn lemma_text_order(a: Seq<char>, b: Seq<char>, c: Seq<char>, i: int)
    requires
        0 <= i,
        i <= a.len() && i <= b.len() && i <= c.len(),
    ensures
        !text_less_from(a, a, i),
        text_less_from(a, b, i) ==> !text_less_from(b, a, i),
        text_less_from(a, b, i) && text_less_from(b, c, i) ==> text_less_from(a, c, i),
        !text_less_from(a, b, i) && !text_less_from(b, c, i) ==> !text_less_from(a, c, i),
    decreases a.len() + b.len() + c.len() - 3 * i,
{
    if i < a.len() {
        lemma_text_self(a, i);
    }
    if i < a.len() && i < b.len() && i < c.len() {
        lemma_text_order(a, b, c, i + 1);
    } else if i < a.len() && i < b.len() {
        lemma_text_pair(a, b, i);
    } else if i < b.len() && i < c.len() {
        lemma_text_pair(b, c, i);
    } else if i < a.len() && i < c.len() {
        lemma_text_pair(a, c, i);
    }
}

proof fn lemma_text_self(a: Seq<char>, i: int)
    requires
        0 <= i <= a.len(),
    ensures
        !text_less_from(a, a, i),
    decreases a.len() - i,
{
    if i < a.len() {
        lemma_text_self(a, i + 1);
    }
}

proof fn lemma_text_pair(a: Seq<char>, b: Seq<char>, i: int)
    requires
        0 <= i <= a.len(),
        i <= b.len(),
    ensures
        text_less_from(a, b, i) ==> !text_less_from(b, a, i),
    decreases a.len() - i,
{
    if i < a.len() && i < b.len() {
        lemma_text_pair(a, b, i + 1);
    }
}

/// Whether a text comes before another: they are the same up to a place, where the first one
/// ends or has the smaller character.
pub open spec fn comes_before(a: Seq<char>, b: Seq<char>) -> bool {
    exists|k: int|
        #![trigger a.take(k)]
        0 <= k <= a.len() && k < b.len() && a.take(k) == b.take(k) && (k == a.len() || a[k] < b[k])
}

proof fn lemma_first_gap(a: Seq<char>, b: Seq<char>, i: int)
    requires
        0 <= i <= a.len(),
        i <= b.len(),
        a.take(i) == b.take(i),
    ensures
        text_less_from(a, b, i) ==> comes_before(a, b),
        comes_before(a, b) ==> text_less_from(a, b, i),
    decreases a.len() - i,
{
    if comes_before(a, b) {
        let k = choose|k: int|
            #![trigger a.take(k)]
            0 <= k <= a.len() && k < b.len() && a.take(k) == b.take(k) && (k == a.len() || a[k]
                < b[k]);
        if k < i {
            assert(a.take(i)[k] == a[k]);
            assert(b.take(i)[k] == b[k]);
        } else if k > i {
            assert(a.take(k)[i] == a[i]);
            assert(b.take(k)[i] == b[i]);
        }
    }
    if i < a.len() && i < b.len() && a[i] == b[i] {
        assert(a.take(i + 1) =~= a.take(i).push(a[i]));
        assert(b.take(i + 1) =~= b.take(i).push(b[i]));
        lemma_first_gap(a, b, i + 1);
    } else {
        assert(a.take(i) == b.take(i));
    }
}

/// Texts are compared character by character, and one that ends comes first.
pub proof fn texts_come_by_their_letters(a: Seq<char>, b: Seq<char>)
    ensures
        text_less(a, b) <==> comes_before(a, b),
{
    assert(a.take(0) =~= b.take(0));
    lemma_first_gap(a, b, 0);
}

/// Texts are in a strict weak order, forwards and backwards.
pub proof fn texts_are_ordered(keys: Seq<Seq<char>>, descending: bool)
    ensures
        is_weak_order(text_key_order(keys, descending), keys.len() as int),
{
    let lt = text_key_order(keys, descending);
    let n = keys.len() as int;
    assert forall|x: int| 0 <= x < n implies !#[trigger] lt(x, x) by {
        lemma_text_self(keys[x], 0);
    }
    assert forall|x: int, y: int| 0 <= x < n && 0 <= y < n && #[trigger] lt(x, y) implies !lt(
        y,
        x,
    ) by {
        lemma_text_pair(keys[x], keys[y], 0);
        lemma_text_pair(keys[y], keys[x], 0);
    }
    assert forall|x: int, y: int, z: int|
        0 <= x < n && 0 <= y < n && 0 <= z < n && #[trigger] lt(x, y) && #[trigger] lt(
            y,
            z,
        ) implies lt(x, z) by {
        lemma_text_order(keys[x], keys[y], keys[z], 0);
        lemma_text_order(keys[z], keys[y], keys[x], 0);
    }
    assert forall|x: int, y: int, z: int|
        0 <= x < n && 0 <= y < n && 0 <= z < n && !#[trigger] lt(x, y) && !#[trigger] lt(
            y,
            z,
        ) implies !lt(x, z) by {
        lemma_text_order(keys[x], keys[y], keys[z], 0);
        lemma_text_order(keys[z], keys[y], keys[x], 0);
    }
}

/// The order of positions by a text key.
pub open spec fn text_key_order(keys: Seq<Seq<char>>, descending: bool) -> spec_fn(int, int) -> bool {
    |x: int, y: int|
        if descending {
            text_less(keys[y], keys[x])
        } else {
            text_less(keys[x], keys[y])
        }
}

/// The order of positions by a number.
pub open spec fn num_key_order(keys: Seq<u64>, descending: bool) -> spec_fn(int, int) -> bool {
    |x: int, y: int|
        if descending {
            less(keys[y], keys[x])
        } else {
            less(keys[x], keys[y])
        }
}

/// Numbers without a NaN among them are in a strict weak order, forwards and
/// backwards.
pub proof fn numbers_are_ordered(keys: Seq<u64>, descending: bool)
    requires
        forall|i: int| 0 <= i < keys.len() ==> !is_nan(#[trigger] keys[i]),
    ensures
        is_weak_order(num_key_order(keys, descending), keys.len() as int),
{
    let lt = num_key_order(keys, descending);
    let n = keys.len() as int;
    assert forall|x: int, y: int, z: int|
        0 <= x < n && 0 <= y < n && 0 <= z < n && !#[trigger] lt(x, y) && !#[trigger] lt(
            y,
            z,
        ) implies !lt(x, z) by {
        assert(!is_nan(keys[x]) && !is_nan(keys[y]) && !is_nan(keys[z]));
    }
}

// ── sorting ─────────────────────────────────────────────────────────────────

/// The rows from `start` on.
pub open spec fn data_rows(rows: RowsView, start: int) -> RowsView {
    rows.subrange(start, rows.len() as int)
}

/// The numbers that the rows are sorted by; rows without one come last.
pub open spec fn sort_numbers(nums: Seq<Seq<Option<u64>>>, start: int, n: int, c: int) -> Seq<u64> {
    Seq::new(
        (n - start) as nat,
        |i: int|
            match num_at(nums, start + i, c) {
                Some(b) => b,
                None => 0x7ff0_0000_0000_0000,
            },
    )
}

/// The texts that the rows are sorted by.
pub open spec fn sort_texts(rows: RowsView, start: int, c: int, ignore_case: bool) -> Seq<
    Seq<char>,
> {
    Seq::new(
        (rows.len() - start) as nat,
        |i: int| haystack(cell_text(cell_at(rows[start + i], c)), ignore_case),
    )
}

/// Whether every data cell of a column is blank or reads as a number.
pub open spec fn is_number_column(
    rows: RowsView,
    nums: Seq<Seq<Option<u64>>>,
    start: int,
    c: int,
) -> bool {
    forall|r: int|
        start <= r < rows.len() ==> is_blank(cell_at(#[trigger] rows[r], c)) || num_at(
            nums,
            r,
            c,
        ) is Some
}

fn arrange(rows: &Rows, start: usize, order: &Vec<usize>) -> (r: Rows)
    requires
        start <= rows@.len(),
        is_all_of(order@, 0, rows@.len() - start),
    ensures
        r.deep_view() == Seq::new(
            (rows@.len() - start) as nat,
            |i: int| data_rows(rows.deep_view(), start as int)[order@[i] as int],
        ),
        r@.len() == rows@.len() - start,
{
    let ghost rv = rows.deep_view();
    let ghost all = Seq::new(
        (rows@.len() - start) as nat,
        |i: int| data_rows(rv, start as int)[order@[i] as int],
    );
    let total: usize = rows.len();
    let mut out: Rows = Vec::new();
    let mut i: usize = 0;
    while i < order.len()
        invariant
            i <= order@.len(),
            start <= rows@.len(),
            total == rows@.len(),
            is_all_of(order@, 0, rows@.len() - start),
            rv == rows.deep_view(),
            all == Seq::new(
                (rows@.len() - start) as nat,
                |i: int| data_rows(rv, start as int)[order@[i] as int],
            ),
            out@.len() == i,
            out.deep_view() == all.take(i as int),
        decreases order@.len() - i,
    {
        let k = order[i];
        assert(start + k < total);
        assert(rv[start + k] == rows@[start + k].deep_view());
        push_deep(&mut out, copy_values(&rows[start + k]));
        i = i + 1;
        assert(out.deep_view() =~= all.take(i as int));
    }
    assert(all.take(i as int) =~= all);
    out
}

/// Rows put back under the header.
pub fn join_header(rows: &Rows, start: usize, data: Rows) -> (r: Rows)
    requires
        start <= 1,
        start <= rows@.len(),
    ensures
        r.deep_view() == under_header(rows.deep_view(), start as int, data.deep_view()),
{
    if start == 0 {
        return data;
    }
    let mut out: Rows = Vec::new();
    assert(rows.deep_view()[0] == rows@[0].deep_view());
    push_deep(&mut out, copy_values(&rows[0]));
    let ghost head = out.deep_view();
    append_deep(&mut out, data);
    assert(head =~= seq![rows.deep_view()[0]]);
    out
}

/// Whether the data rows are sorted by numbers: as the options say, or where every
/// data cell allows of it.
pub open spec fn sorts_by_number(
    opts: Json,
    rows: RowsView,
    nums: Seq<Seq<Option<u64>>>,
    start: int,
    c: int,
) -> bool {
    match flag_at(opts, "numeric"@) {
        Some(b) => b,
        None => is_number_column(rows, nums, start, c),
    }
}

fn number_column(rows: &Rows, nums: &Nums, start: usize, c: usize) -> (r: bool)
    requires
        start <= rows@.len(),
    ensures
        r == is_number_column(rows.deep_view(), nums_view(nums@), start as int, c as int),
{
    let ghost rv = rows.deep_view();
    let mut i: usize = start;
    while i < rows.len()
        invariant
            start <= i <= rows@.len(),
            rv == rows.deep_view(),
            forall|r: int|
                start <= r < i ==> is_blank(cell_at(#[trigger] rv[r], c as int)) || num_at(
                    nums_view(nums@),
                    r,
                    c as int,
                ) is Some,
        decreases rows@.len() - i,
    {
        assert(rv[i as int] == rows@[i as int].deep_view());
        let cell = copy_cell(&rows[i], c);
        if !sheet_cell_blank(&cell) && number_of(nums, i, c).is_none() {
            assert(!(is_blank(cell_at(rv[i as int], c as int)) || num_at(
                nums_view(nums@),
                i as int,
                c as int,
            ) is Some));
            return false;
        }
        i = i + 1;
    }
    true
}

fn read_sort_numbers(nums: &Nums, start: usize, n: usize, c: usize) -> (r: Vec<u64>)
    requires
        start <= n,
    ensures
        r@ == sort_numbers(nums_view(nums@), start as int, n as int, c as int),
{
    let ghost all = sort_numbers(nums_view(nums@), start as int, n as int, c as int);
    let mut out: Vec<u64> = Vec::new();
    let mut i: usize = start;
    while i < n
        invariant
            start <= i <= n,
            all == sort_numbers(nums_view(nums@), start as int, n as int, c as int),
            out@ == all.take(i - start),
        decreases n - i,
    {
        out.push(
            match number_of(nums, i, c) {
                Some(b) => b,
                None => 0x7ff0_0000_0000_0000,
            },
        );
        i = i + 1;
        assert(out@ =~= all.take(i - start));
    }
    assert(all.take(i - start) =~= all);
    out
}

fn read_sort_texts(rows: &Rows, start: usize, c: usize, ignore_case: bool) -> (r: Vec<String>)
    requires
        start <= rows@.len(),
    ensures
        r.deep_view() == sort_texts(rows.deep_view(), start as int, c as int, ignore_case),
        r@.len() == rows@.len() - start,
{
    let ghost rv = rows.deep_view();
    let ghost all = sort_texts(rv, start as int, c as int, ignore_case);
    let mut out: Vec<String> = Vec::new();
    let mut i: usize = start;
    while i < rows.len()
        invariant
            start <= i <= rows@.len(),
            rv == rows.deep_view(),
            all == sort_texts(rv, start as int, c as int, ignore_case),
            out@.len() == i - start,
            out.deep_view() == all.take(i - start),
        decreases rows@.len() - i,
    {
        assert(rv[i as int] == rows@[i as int].deep_view());
        let t = cell_to_string(&copy_cell(&rows[i], c));
        push_deep(&mut out, make_haystack(t.as_str(), ignore_case));
        i = i + 1;
        assert(out.deep_view() =~= all.take(i - start));
    }
    assert(all.take(i - start) =~= all);
    out
}

/// The order in which the data rows of a sheet are sorted by one column.
pub open spec fn sort_order(
    opts: Json,
    rows: RowsView,
    nums: Seq<Seq<Option<u64>>>,
    start: int,
    c: int,
) -> spec_fn(int, int) -> bool {
    let descending = flag_at(opts, "descending"@) == Some(true);
    if sorts_by_number(opts, rows, nums, start, c) {
        num_key_order(sort_numbers(nums, start, rows.len() as int, c), descending)
    } else {
        text_key_order(
            sort_texts(rows, start, c, flag_at(opts, "ignore_case"@) == Some(true)),
            descending,
        )
    }
}

/// Sorts the data rows by a column: by number or by text, up or down. Rows of equal
/// keys keep their order.
pub fn op_sheet_sort(opts: &Value, rows: &Rows, nums: &Nums, header: bool, c: usize) -> (r: Rows)
    ensures
        ({
            let rv = rows.deep_view();
            let start = data_start(header, rv);
            exists|data: RowsView|
                r.deep_view() == #[trigger] under_header(rv, start, data) && is_sorted_copy(
                    data_rows(rv, start),
                    data,
                    sort_order(opts.deep_view(), rv, nums_view(nums@), start, c as int),
                )
        }),
        exists|at: Seq<int>| #[trigger]
            is_sorting(
                opts.deep_view(),
                rows.deep_view(),
                nums_view(nums@),
                header,
                c as int,
                r.deep_view(),
                at,
            ),
{
    let start = first_data_row(header, rows);
    let ghost rv = rows.deep_view();
    let ghost nv = nums_view(nums@);
    let descending = match opt_flag(opts, "descending") {
        Some(b) => b,
        None => false,
    };
    let numeric = match opt_flag(opts, "numeric") {
        Some(b) => b,
        None => number_column(rows, nums, start, c),
    };
    let n: usize = rows.len() - start;
    let ghost lt = sort_order(opts.deep_view(), rv, nv, start as int, c as int);
    let order: Vec<usize> = if numeric {
        let keys = read_sort_numbers(nums, start, rows.len(), c);
        let less_than = |x: usize, y: usize| -> (b: bool)
            requires
                x < keys@.len(),
                y < keys@.len(),
            ensures
                b == (if descending {
                    less(keys@[y as int], keys@[x as int])
                } else {
                    less(keys@[x as int], keys@[y as int])
                }),
            {
                if descending {
                    bits_less(keys[y], keys[x])
                } else {
                    bits_less(keys[x], keys[y])
                }
            };
        stable_order(n, &less_than, Ghost(lt))
    } else {
        let ignore_case = match opt_flag(opts, "ignore_case") {
            Some(b) => b,
            None => false,
        };
        let keys = read_sort_texts(rows, start, c, ignore_case);
        let less_than = |x: usize, y: usize| -> (b: bool)
            requires
                x < keys@.len(),
                y < keys@.len(),
            ensures
                b == (if descending {
                    text_less(keys@[y as int]@, keys@[x as int]@)
                } else {
                    text_less(keys@[x as int]@, keys@[y as int]@)
                }),
            {
                if descending {
                    text_before(keys[y].as_str(), keys[x].as_str())
                } else {
                    text_before(keys[x].as_str(), keys[y].as_str())
                }
            };
        assert forall|x: usize, y: usize| x < n && y < n implies #[trigger] lt(x as int, y as int)
            == (if descending {
            text_less(keys@[y as int]@, keys@[x as int]@)
        } else {
            text_less(keys@[x as int]@, keys@[y as int]@)
        }) by {
            assert(keys.deep_view()[x as int] == keys@[x as int]@);
            assert(keys.deep_view()[y as int] == keys@[y as int]@);
        }
        stable_order(n, &less_than, Ghost(lt))
    };
    let data = arrange(rows, start, &order);
    proof {
        let dv = data.deep_view();
        let all = data_rows(rv, start as int);
        assert(is_arrangement(all, dv, order@)) by {
            assert(dv =~= Seq::new(all.len(), |i: int| all[order@[i] as int]));
        }
        if is_weak_order(lt, all.len() as int) {
            assert(dv =~= in_order(all, lt));
        }
        assert(is_sorted_copy(all, dv, lt));
        let at = sorting_puts_rows_in_order(opts.deep_view(), rv, nv, header, c as int, dv);
    }
    join_header(rows, start, data)
}

// ── what sorting does to rows ───────────────────────────────────────────────

/// Whether `out` has the header of a sheet, where it has one, and below it each of the data
/// rows once, those of the rows `at`.
pub open spec fn are_rows_moved(rows: RowsView, header: bool, out: RowsView, at: Seq<int>) -> bool {
    let start: int = if header && rows.len() > 0 {
        1
    } else {
        0
    };
    &&& out.len() == rows.len()
    &&& start == 1 ==> out[0] == rows[0]
    &&& at.len() == rows.len() - start
    &&& at.no_duplicates()
    &&& forall|i: int|
        0 <= i < at.len() ==> start <= #[trigger] at[i] < rows.len() && out[start + i]
            == rows[at[i]]
}

/// Where the data rows of a sheet start: below the header, where it has one.
pub open spec fn below_header(header: bool, rows: RowsView) -> int {
    if !header || rows.len() == 0 {
        0
    } else {
        1
    }
}

/// What a row holds in a column; null where it is too short.
pub open spec fn held_in(rows: RowsView, r: int, c: int) -> Json {
    if 0 <= c < rows[r].len() {
        rows[r][c]
    } else {
        Json::Null
    }
}

/// The text that a row shows in a column.
pub open spec fn shown_in(rows: RowsView, r: int, c: int) -> Seq<char> {
    cell_text(
        if 0 <= c < rows[r].len() {
            rows[r][c]
        } else {
            Json::Null
        },
    )
}

/// The number that a row has in a column.
pub open spec fn number_at(nums: Seq<Seq<Option<u64>>>, r: int, c: int) -> Option<u64> {
    if 0 <= r < nums.len() && 0 <= c < nums[r].len() {
        nums[r][c]
    } else {
        None
    }
}

/// Whether a row has nothing but white space in a column.
pub open spec fn is_empty_in(rows: RowsView, r: int, c: int) -> bool {
    0 <= c < rows[r].len() ==> match rows[r][c] {
        Json::Null => true,
        Json::Text(t) => forall|i: int| 0 <= i < t.len() ==> is_space(#[trigger] t[i]),
        _ => false,
    }
}

/// The number that a row is sorted by; without one it comes as if it were infinite.
pub open spec fn number_key(nums: Seq<Seq<Option<u64>>>, r: int, c: int) -> u64 {
    match number_at(nums, r, c) {
        Some(b) => b,
        None => 0x7ff0_0000_0000_0000,
    }
}

/// Whether the rows of a column are sorted by number: as it is asked for, or where each data
/// row has a number there or nothing.
pub open spec fn goes_by_number(
    opts: Json,
    rows: RowsView,
    nums: Seq<Seq<Option<u64>>>,
    header: bool,
    c: int,
) -> bool {
    match flag_at(opts, "numeric"@) {
        Some(b) => b,
        None => forall|r: int|
            0 <= r < rows.len() && (header ==> r >= 1) ==> #[trigger] number_at(nums, r, c) is Some
                || is_empty_in(rows, r, c),
    }
}

/// Whether `out` is a sheet with its data rows sorted by a column, upwards or downwards: each
/// row stays above those with a key that comes later and above those with the same key that
/// it was above.
pub open spec fn is_sorting(
    opts: Json,
    rows: RowsView,
    nums: Seq<Seq<Option<u64>>>,
    header: bool,
    c: int,
    out: RowsView,
    at: Seq<int>,
) -> bool {
    let down = flag_at(opts, "descending"@) == Some(true);
    let fold = flag_at(opts, "ignore_case"@) == Some(true);
    &&& are_rows_moved(rows, header, out, at)
    &&& goes_by_number(opts, rows, nums, header, c) && (forall|i: int|
        0 <= i < at.len() ==> !is_nan(number_key(nums, #[trigger] at[i], c))) ==> forall|
        a: int,
        b: int,
    |
        0 <= a < b < at.len() ==> {
            let x = rank(number_key(nums, #[trigger] at[a], c));
            let y = rank(number_key(nums, #[trigger] at[b], c));
            if x == y {
                at[a] < at[b]
            } else if down {
                x > y
            } else {
                x < y
            }
        }
    &&& !goes_by_number(opts, rows, nums, header, c) ==> forall|a: int, b: int|
        0 <= a < b < at.len() ==> {
            let ta = shown_in(rows, #[trigger] at[a], c);
            let tb = shown_in(rows, #[trigger] at[b], c);
            let x = if fold {
                lowercase(ta)
            } else {
                ta
            };
            let y = if fold {
                lowercase(tb)
            } else {
                tb
            };
            if x == y {
                at[a] < at[b]
            } else if down {
                comes_before(y, x)
            } else {
                comes_before(x, y)
            }
        }
}

proof fn lemma_no_order(a: Seq<char>, b: Seq<char>, i: int)
    requires
        0 <= i <= a.len(),
        i <= b.len(),
        a.take(i) == b.take(i),
        !text_less_from(a, b, i),
        !text_less_from(b, a, i),
    ensures
        a == b,
    decreases a.len() - i,
{
    if i < a.len() && i < b.len() {
        assert(a[i] == b[i]);
        assert(a.take(i + 1) =~= a.take(i).push(a[i]));
        assert(b.take(i + 1) =~= b.take(i).push(b[i]));
        lemma_no_order(a, b, i + 1);
    } else {
        assert(a.take(i) =~= a);
        assert(b.take(i) =~= b);
    }
}

/// Of two different texts one comes before the other.
pub proof fn lemma_one_comes_first(a: Seq<char>, b: Seq<char>)
    requires
        !text_less(a, b),
        !text_less(b, a),
    ensures
        a == b,
{
    assert(a.take(0) =~= b.take(0));
    lemma_no_order(a, b, 0);
}

/// A text is trimmed away where it is all white space.
pub proof fn lemma_trimmed_away(t: Seq<char>)
    ensures
        trim(t).len() == 0 <==> forall|i: int| 0 <= i < t.len() ==> is_space(#[trigger] t[i]),
{
    crate::render::lemma_skip_bounds(t, 0);
    let x = skip_space(t, 0);
    crate::render::lemma_back_ends(t, x, t.len() as int);
    let y = back_space(t, x, t.len() as int);
    if x < t.len() {
        assert(!is_space(t[x]));
        if y <= x {
            assert(is_space(t[x]));
        }
    }
}

proof fn lemma_goes_by_number(
    opts: Json,
    rows: RowsView,
    nums: Seq<Seq<Option<u64>>>,
    header: bool,
    c: int,
)
    ensures
        goes_by_number(opts, rows, nums, header, c) == sorts_by_number(
            opts,
            rows,
            nums,
            data_start(header, rows),
            c,
        ),
{
    let start = data_start(header, rows);
    assert forall|r: int| start <= r < rows.len() implies is_blank(cell_at(#[trigger] rows[r], c))
        == is_empty_in(rows, r, c) by {
        if 0 <= c < rows[r].len() {
            match rows[r][c] {
                Json::Text(t) => {
                    lemma_trimmed_away(t);
                },
                _ => {},
            }
        }
    }
    if flag_at(opts, "numeric"@) is None {
        if is_number_column(rows, nums, start, c) {
            assert forall|r: int|
                0 <= r < rows.len() && (header ==> r >= 1) implies #[trigger] number_at(
                nums,
                r,
                c,
            ) is Some || is_empty_in(rows, r, c) by {
                assert(is_blank(cell_at(rows[r], c)) || num_at(nums, r, c) is Some);
            }
        }
        if goes_by_number(opts, rows, nums, header, c) {
            assert forall|r: int| start <= r < rows.len() implies is_blank(
                cell_at(#[trigger] rows[r], c),
            ) || num_at(nums, r, c) is Some by {
                assert(number_at(nums, r, c) is Some || is_empty_in(rows, r, c));
            }
        }
    }
}

/// The positions that a stable sort, or where there is none any arrangement, puts rows to.
proof fn lemma_moved(
    rows: RowsView,
    header: bool,
    data: RowsView,
    lt: spec_fn(int, int) -> bool,
) -> (at: Seq<int>)
    requires
        is_sorted_copy(data_rows(rows, data_start(header, rows)), data, lt),
        rows.len() <= usize::MAX,
    ensures
        are_rows_moved(rows, header, under_header(rows, data_start(header, rows), data), at),
        is_weak_order(lt, rows.len() - data_start(header, rows)) ==> forall|a: int, b: int|
            0 <= a < b < at.len() ==> before(
                lt,
                #[trigger] at[a] - data_start(header, rows),
                #[trigger] at[b] - data_start(header, rows),
            ),
{
    let start = data_start(header, rows);
    let all = data_rows(rows, start);
    let n = all.len() as int;
    let r = if is_weak_order(lt, n) {
        lemma_stable_sort_exists(n, lt);
        assert(is_stable_sort(order_of(n, lt), n, lt));
        order_of(n, lt)
    } else {
        choose|r: Seq<usize>| #[trigger] is_arrangement(all, data, r)
    };
    assert(is_all_of(r, 0, n));
    assert(data == Seq::new(all.len(), |i: int| all[r[i] as int]));
    let at = Seq::new(r.len(), |i: int| start + r[i]);
    let out = under_header(rows, start, data);
    assert forall|a: int, b: int| 0 <= a < at.len() && 0 <= b < at.len() && a != b implies at[a]
        != at[b] by {
        assert(r[a] != r[b]);
    }
    assert forall|i: int| 0 <= i < at.len() implies start <= #[trigger] at[i] < rows.len()
        && out[start + i] == rows[at[i]] by {
        assert(0 <= r[i] < n);
        assert(data[i] == all[r[i] as int]);
        assert(all[r[i] as int] == rows[start + r[i]]);
    }
    assert forall|a: int, b: int| is_weak_order(lt, n) && 0 <= a < b < at.len() implies before(
        lt,
        #[trigger] at[a] - start,
        #[trigger] at[b] - start,
    ) by {
        assert(before(lt, r[a] as int, r[b] as int));
    }
    at
}

/// Sorting a sheet puts its data rows in order of a column, downwards where that is asked
/// for, loses none of them, and leaves rows with the same key as they stand to each other.
pub proof fn sorting_puts_rows_in_order(
    opts: Json,
    rows: RowsView,
    nums: Seq<Seq<Option<u64>>>,
    header: bool,
    c: int,
    data: RowsView,
) -> (at: Seq<int>)
    requires
        rows.len() <= usize::MAX,
        is_sorted_copy(
            data_rows(rows, data_start(header, rows)),
            data,
            sort_order(opts, rows, nums, data_start(header, rows), c),
        ),
    ensures
        is_sorting(
            opts,
            rows,
            nums,
            header,
            c,
            under_header(rows, data_start(header, rows), data),
            at,
        ),
{
    let start = data_start(header, rows);
    let lt = sort_order(opts, rows, nums, start, c);
    let down = flag_at(opts, "descending"@) == Some(true);
    let fold = flag_at(opts, "ignore_case"@) == Some(true);
    let n = rows.len() - start;
    let at = lemma_moved(rows, header, data, lt);
    lemma_goes_by_number(opts, rows, nums, header, c);
    if goes_by_number(opts, rows, nums, header, c) {
        let keys = sort_numbers(nums, start, rows.len() as int, c);
        if forall|i: int| 0 <= i < at.len() ==> !is_nan(number_key(nums, #[trigger] at[i], c)) {
            assert forall|k: int| 0 <= k < keys.len() implies !is_nan(#[trigger] keys[k]) by {
                lemma_all_moved(rows, header, at, start + k);
                let i = choose|i: int| 0 <= i < at.len() && at[i] == start + k;
                assert(!is_nan(number_key(nums, at[i], c)));
            }
            numbers_are_ordered(keys, down);
            assert forall|a: int, b: int| 0 <= a < b < at.len() implies {
                let x = rank(number_key(nums, #[trigger] at[a], c));
                let y = rank(number_key(nums, #[trigger] at[b], c));
                if x == y {
                    at[a] < at[b]
                } else if down {
                    x > y
                } else {
                    x < y
                }
            } by {
                assert(before(lt, at[a] - start, at[b] - start));
                assert(keys[at[a] - start] == number_key(nums, at[a], c));
                assert(keys[at[b] - start] == number_key(nums, at[b], c));
            }
        }
    } else {
        let keys = sort_texts(rows, start, c, fold);
        texts_are_ordered(keys, down);
        assert forall|a: int, b: int| 0 <= a < b < at.len() implies {
            let ta = shown_in(rows, #[trigger] at[a], c);
            let tb = shown_in(rows, #[trigger] at[b], c);
            let x = if fold {
                lowercase(ta)
            } else {
                ta
            };
            let y = if fold {
                lowercase(tb)
            } else {
                tb
            };
            if x == y {
                at[a] < at[b]
            } else if down {
                comes_before(y, x)
            } else {
                comes_before(x, y)
            }
        } by {
            assert(before(lt, at[a] - start, at[b] - start));
            let x = keys[at[a] - start];
            let y = keys[at[b] - start];
            texts_come_by_their_letters(x, y);
            texts_come_by_their_letters(y, x);
            lemma_text_self(x, 0);
            if !text_less(x, y) && !text_less(y, x) {
                lemma_one_comes_first(x, y);
            }
        }
    }
    at
}

/// Each data row is among those that were moved.
proof fn lemma_all_moved(rows: RowsView, header: bool, at: Seq<int>, r: int)
    requires
        at.no_duplicates(),
        at.len() == rows.len() - data_start(header, rows),
        forall|i: int|
            0 <= i < at.len() ==> data_start(header, rows) <= #[trigger] at[i] < rows.len(),
        data_start(header, rows) <= r < rows.len(),
        rows.len() <= usize::MAX,
    ensures
        exists|i: int| 0 <= i < at.len() && at[i] == r,
{
    let start = data_start(header, rows);
    let s = Seq::new(at.len(), |i: int| (at[i] - start) as usize);
    assert forall|a: int, b: int| 0 <= a < s.len() && 0 <= b < s.len() && a != b implies s[a]
        != s[b] by {
        assert(at[a] != at[b]);
    }
    lemma_all_there(s, at.len() as int, r - start);
    let i = choose|i: int| 0 <= i < s.len() && s[i] == r - start;
    assert(at[i] == r);
}

// ── sorting by several columns ──────────────────────────────────────────────

/// How two cells compare: -1 where the first comes first, 1 where the second does, 0
/// where neither. Numbers compare as numbers, anything else as text.
pub open spec fn cell_order(ta: Seq<char>, na: Option<u64>, tb: Seq<char>, nb: Option<u64>) -> int {
    match (na, nb) {
        (Some(x), Some(y)) => if less(x, y) {
            -1
        } else if less(y, x) {
            1
        } else {
            0
        },
        _ => if text_less(ta, tb) {
            -1
        } else if text_less(tb, ta) {
            1
        } else {
            0
        },
    }
}

fn order_cells(ta: &str, na: Option<u64>, tb: &str, nb: Option<u64>) -> (r: i8)
    ensures
        r == cell_order(ta@, na, tb@, nb),
{
    match (na, nb) {
        (Some(x), Some(y)) => if bits_less(x, y) {
            -1
        } else if bits_less(y, x) {
            1
        } else {
            0
        },
        _ => if text_before(ta, tb) {
            -1
        } else if text_before(tb, ta) {
            1
        } else {
            0
        },
    }
}

/// How rows `x` and `y` compare by key `k`.
pub open spec fn key_order(
    rows: RowsView,
    nums: Seq<Seq<Option<u64>>>,
    key: (usize, bool),
    x: int,
    y: int,
) -> int {
    let c = key.0 as int;
    let o = cell_order(
        cell_text(cell_at(rows[x], c)),
        num_at(nums, x, c),
        cell_text(cell_at(rows[y], c)),
        num_at(nums, y, c),
    );
    if key.1 {
        -o
    } else {
        o
    }
}

/// Whether row `x` comes before row `y` by the keys from `k` on.
pub open spec fn keys_less(
    rows: RowsView,
    nums: Seq<Seq<Option<u64>>>,
    keys: Seq<(usize, bool)>,
    x: int,
    y: int,
    k: int,
) -> bool
    decreases keys.len() - k,
{
    if 0 <= k < keys.len() {
        let o = key_order(rows, nums, keys[k], x, y);
        if o != 0 {
            o < 0
        } else {
            keys_less(rows, nums, keys, x, y, k + 1)
        }
    } else {
        false
    }
}

pub open spec fn multi_order(
    rows: RowsView,
    nums: Seq<Seq<Option<u64>>>,
    keys: Seq<(usize, bool)>,
    start: int,
) -> spec_fn(int, int) -> bool {
    |x: int, y: int| keys_less(rows, nums, keys, start + x, start + y, 0)
}

fn row_before(rows: &Rows, nums: &Nums, keys: &Vec<(usize, bool)>, x: usize, y: usize) -> (r: bool)
    requires
        x < rows@.len(),
        y < rows@.len(),
    ensures
        r == keys_less(rows.deep_view(), nums_view(nums@), keys@, x as int, y as int, 0),
{
    let ghost rv = rows.deep_view();
    let ghost nv = nums_view(nums@);
    let mut k: usize = 0;
    while k < keys.len()
        invariant
            k <= keys@.len(),
            x < rows@.len(),
            y < rows@.len(),
            rv == rows.deep_view(),
            nv == nums_view(nums@),
            keys_less(rv, nv, keys@, x as int, y as int, 0) == keys_less(
                rv,
                nv,
                keys@,
                x as int,
                y as int,
                k as int,
            ),
        decreases keys@.len() - k,
    {
        let c = keys[k].0;
        assert(rv[x as int] == rows@[x as int].deep_view());
        assert(rv[y as int] == rows@[y as int].deep_view());
        let ta = cell_to_string(&copy_cell(&rows[x], c));
        let tb = cell_to_string(&copy_cell(&rows[y], c));
        let o = order_cells(
            ta.as_str(),
            number_of(nums, x, c),
            tb.as_str(),
            number_of(nums, y, c),
        );
        if o != 0 {
            return (o < 0) != keys[k].1;
        }
        k = k + 1;
    }
    false
}

/// Sorts the data rows by several columns, each up or down, in the order of the keys.
pub fn op_sheet_multisort(rows: &Rows, nums: &Nums, header: bool, keys: &Vec<(usize, bool)>) -> (r:
    Rows)
    ensures
        ({
            let rv = rows.deep_view();
            let start = data_start(header, rv);
            exists|data: RowsView|
                r.deep_view() == #[trigger] under_header(rv, start, data) && is_sorted_copy(
                    data_rows(rv, start),
                    data,
                    multi_order(rv, nums_view(nums@), keys@, start),
                )
        }),
        exists|at: Seq<int>| #[trigger]
            is_multisorting(
                rows.deep_view(),
                nums_view(nums@),
                header,
                keys@,
                r.deep_view(),
                at,
            ),
{
    let start = first_data_row(header, rows);
    let ghost rv = rows.deep_view();
    let ghost lt = multi_order(rv, nums_view(nums@), keys@, start as int);
    let n: usize = rows.len() - start;
    let total: usize = rows.len();
    let less_than = |x: usize, y: usize| -> (b: bool)
        requires
            start + x < rows@.len(),
            start + y < rows@.len(),
            total == rows@.len(),
        ensures
            b == keys_less(
                rows.deep_view(),
                nums_view(nums@),
                keys@,
                start + x,
                start + y,
                0,
            ),
        { row_before(rows, nums, keys, start + x, start + y) };
    let order = stable_order(n, &less_than, Ghost(lt));
    let data = arrange(rows, start, &order);
    proof {
        let dv = data.deep_view();
        let all = data_rows(rv, start as int);
        assert(is_arrangement(all, dv, order@)) by {
            assert(dv =~= Seq::new(all.len(), |i: int| all[order@[i] as int]));
        }
        if is_weak_order(lt, all.len() as int) {
            assert(dv =~= in_order(all, lt));
        }
        assert(is_sorted_copy(all, dv, lt));
        let at = multisorting_puts_rows_in_order(rv, nums_view(nums@), header, keys@, dv);
    }
    join_header(rows, start, data)
}

/// The sort keys that the options list, or the first thing that is wrong with them.
pub open spec fn wanted_keys(opts: Json, header: bool, rows: RowsView) -> Result<
    Seq<(usize, bool)>,
    Seq<char>,
> {
    match as_array(field(opts, "keys"@)) {
        None => Err("missing keys (expected array of {column, descending?})"@),
        Some(a) => if a.len() == 0 {
            Err("keys must list at least one column"@)
        } else {
            keys_among(a, header, rows, a.len())
        },
    }
}

pub open spec fn keys_among(a: Seq<Json>, header: bool, rows: RowsView, n: nat) -> Result<
    Seq<(usize, bool)>,
    Seq<char>,
>
    decreases n,
{
    if n == 0 || n > a.len() {
        Ok(Seq::empty())
    } else {
        match keys_among(a, header, rows, (n - 1) as nat) {
            Err(e) => Err(e),
            Ok(before) => match resolved_col(
                field(a[n - 1], "column"@),
                header,
                rows,
                "column must be a name or 0-based index"@,
            ) {
                Err(e) => Err(e),
                Ok(c) => Ok(before.push((c, flag_at(a[n - 1], "descending"@) == Some(true)))),
            },
        }
    }
}

proof fn lemma_keys_fault(a: Seq<Json>, header: bool, rows: RowsView, i: nat, n: nat)
    requires
        i <= n <= a.len(),
        keys_among(a, header, rows, i) is Err,
    ensures
        keys_among(a, header, rows, n) == keys_among(a, header, rows, i),
    decreases n - i,
{
    if i < n {
        lemma_keys_fault(a, header, rows, i, (n - 1) as nat);
    }
}

pub fn sort_keys(opts: &Value, header: bool, rows: &Rows) -> (r: Result<
    Vec<(usize, bool)>,
    String,
>)
    ensures
        match r {
            Ok(k) => wanted_keys(opts.deep_view(), header, rows.deep_view()) == Ok::<
                Seq<(usize, bool)>,
                Seq<char>,
            >(k@),
            Err(e) => wanted_keys(opts.deep_view(), header, rows.deep_view()) == Err::<
                Seq<(usize, bool)>,
                Seq<char>,
            >(e@),
        },
{
    let a = match opts.array_at("keys") {
        None => {
            return Err(copy_text("missing keys (expected array of {column, descending?})"));
        },
        Some(a) => a,
    };
    if a.len() == 0 {
        return Err(copy_text("keys must list at least one column"));
    }
    let ghost av = a.deep_view();
    let ghost rv = rows.deep_view();
    let mut out: Vec<(usize, bool)> = Vec::new();
    let mut i: usize = 0;
    while i < a.len()
        invariant
            i <= a@.len(),
            av == a.deep_view(),
            rv == rows.deep_view(),
            av.len() > 0,
            as_array(field(opts.deep_view(), "keys"@)) == Some(av),
            keys_among(av, header, rv, i as nat) == Ok::<Seq<(usize, bool)>, Seq<char>>(out@),
        decreases a@.len() - i,
    {
        assert(av[i as int] == a@[i as int].deep_view());
        match resolve_col(a[i].get("column"), header, rows) {
            Ok(c) => {
                let desc = match opt_flag(&a[i], "descending") {
                    Some(b) => b,
                    None => false,
                };
                out.push((c, desc));
            },
            Err(e) => {
                proof {
                    lemma_keys_fault(av, header, rv, (i + 1) as nat, av.len());
                }
                return Err(e);
            },
        }
        i = i + 1;
    }
    Ok(out)
}

// ── ranking ─────────────────────────────────────────────────────────────────

/// Whether `v` ranks before `x`; everything ranks before what is no number.
pub open spec fn outranks(v: u64, x: u64, ascending: bool) -> bool {
    if is_nan(x) {
        true
    } else if ascending {
        less(v, x)
    } else {
        less(x, v)
    }
}

/// The number of values among the first `n` that rank before `x`.
pub open spec fn better_count(vals: Seq<u64>, x: u64, ascending: bool, n: nat) -> nat
    decreases n,
{
    if n == 0 || n > vals.len() {
        0
    } else {
        better_count(vals, x, ascending, (n - 1) as nat) + (if outranks(
            vals[n - 1],
            x,
            ascending,
        ) {
            1nat
        } else {
            0nat
        })
    }
}

/// Whether the value at `i` is equal to one before it.
pub open spec fn seen_before(vals: Seq<u64>, i: int) -> bool {
    exists|k: int| 0 <= k < i && equal(#[trigger] vals[k], vals[i])
}

/// The number of distinct values among the first `n` that rank before `x`.
pub open spec fn better_distinct(vals: Seq<u64>, x: u64, ascending: bool, n: nat) -> nat
    decreases n,
{
    if n == 0 || n > vals.len() {
        0
    } else {
        better_distinct(vals, x, ascending, (n - 1) as nat) + (if outranks(
            vals[n - 1],
            x,
            ascending,
        ) && !seen_before(vals, n - 1) {
            1nat
        } else {
            0nat
        })
    }
}

/// The rank of `x`: one more than the values that rank before it, or than the
/// distinct ones among them.
pub open spec fn rank_among(vals: Seq<u64>, x: u64, ascending: bool, dense: bool) -> nat {
    1 + (if dense {
        better_distinct(vals, x, ascending, vals.len())
    } else {
        better_count(vals, x, ascending, vals.len())
    })
}

fn was_seen(vals: &Vec<u64>, i: usize) -> (r: bool)
    requires
        i < vals@.len(),
    ensures
        r == seen_before(vals@, i as int),
{
    let mut k: usize = 0;
    while k < i
        invariant
            k <= i < vals@.len(),
            forall|m: int| 0 <= m < k ==> !equal(#[trigger] vals@[m], vals@[i as int]),
        decreases i - k,
    {
        if bits_equal(vals[k], vals[i]) {
            return true;
        }
        k = k + 1;
    }
    false
}

fn rank_of(vals: &Vec<u64>, x: u64, ascending: bool, dense: bool) -> (r: u64)
    ensures
        r == in_64_bits(rank_among(vals@, x, ascending, dense)),
{
    let mut better: u64 = 0;
    let mut i: usize = 0;
    let ghost mut count: nat = 0;
    while i < vals.len()
        invariant
            i <= vals@.len(),
            count == (if dense {
                better_distinct(vals@, x, ascending, i as nat)
            } else {
                better_count(vals@, x, ascending, i as nat)
            }),
            better == in_64_bits(count),
        decreases vals@.len() - i,
    {
        let first = if bits_nan(x) {
            true
        } else if ascending {
            bits_less(vals[i], x)
        } else {
            bits_less(x, vals[i])
        };
        if first && !(dense && was_seen(vals, i)) {
            better = crate::deck::add_count(better, 1, Ghost(count), Ghost(1));
            proof {
                count = count + 1;
            }
        }
        i = i + 1;
    }
    crate::deck::add_count(1, better, Ghost(1), Ghost(count))
}

/// The rank of each reading, in the order of the readings; none where a cell reads as
/// no number. A NaN ranks last.
pub fn op_sheet_rank(vals: &Vec<Option<u64>>, ascending: bool, dense: bool) -> (r: Vec<Option<u64>>)
    ensures
        r@ == Seq::new(
            vals@.len(),
            |i: int|
                match vals@[i] {
                    Some(x) => Some(
                        in_64_bits(
                            rank_among(
                                crate::columns::numbers_in(vals@, vals@.len()),
                                x,
                                ascending,
                                dense,
                            ),
                        ),
                    ),
                    None => None,
                },
        ),
{
    let present = crate::columns::column_numbers(vals);
    let mut out: Vec<Option<u64>> = Vec::new();
    let ghost all = Seq::new(
        vals@.len(),
        |i: int|
            match vals@[i] {
                Some(x) => Some(in_64_bits(rank_among(present@, x, ascending, dense))),
                None => None,
            },
    );
    let mut i: usize = 0;
    while i < vals.len()
        invariant
            i <= vals@.len(),
            all == Seq::new(
                vals@.len(),
                |i: int|
                    match vals@[i] {
                        Some(x) => Some(in_64_bits(rank_among(present@, x, ascending, dense))),
                        None => None,
                    },
            ),
            out@ == all.take(i as int),
        decreases vals@.len() - i,
    {
        let item = match vals[i] {
            Some(x) => Some(rank_of(&present, x, ascending, dense)),
            None => None,
        };
        out.push(item);
        i = i + 1;
        assert(out@ =~= all.take(i as int));
    }
    assert(all.take(i as int) =~= all);
    out
}

/// Of two numbers, the one that ranks before the other has the smaller competition
/// rank or the same, and no rank is above the number of values.
pub proof fn rank_follows_order(vals: Seq<u64>, x: u64, y: u64, ascending: bool)
    requires
        outranks(x, y, ascending),
    ensures
        rank_among(vals, x, ascending, false) <= rank_among(vals, y, ascending, false),
        rank_among(vals, x, ascending, false) <= vals.len() + 1,
{
    lemma_better(vals, x, y, ascending, vals.len());
}

proof fn lemma_better(vals: Seq<u64>, x: u64, y: u64, ascending: bool, n: nat)
    requires
        outranks(x, y, ascending),
        n <= vals.len(),
    ensures
        better_count(vals, x, ascending, n) <= better_count(vals, y, ascending, n),
        better_count(vals, x, ascending, n) <= n,
    decreases n,
{
    if n > 0 {
        lemma_better(vals, x, y, ascending, (n - 1) as nat);
    }
}

// ── conditions ──────────────────────────────────────────────────────────────

/// A condition on a cell: how it is compared, with what, and whether case counts.
pub struct Condition {
    pub op: String,
    pub value: Value,
    /// The number that the value reads as.
    pub number: Option<u64>,
    pub ignore_case: bool,
}

#[verifier::ext_equal]
pub struct ConditionView {
    pub op: Seq<char>,
    pub value: Json,
    pub number: Option<u64>,
    pub ignore_case: bool,
}

impl DeepView for Condition {
    type V = ConditionView;

    open spec fn deep_view(&self) -> ConditionView {
        ConditionView {
            op: self.op@,
            value: self.value.deep_view(),
            number: self.number,
            ignore_case: self.ignore_case,
        }
    }
}

pub open spec fn is_number_op(op: Seq<char>) -> bool {
    op == "gt"@ || op == "lt"@ || op == "ge"@ || op == "le"@
}

/// Whether a cell meets a condition. `gt`, `lt`, `ge` and `le` compare numbers and
/// fail where a side reads as none; `eq`, `ne`, `contains` and `not_contains` compare
/// texts; any other comparison fails.
pub open spec fn meets(cell: Json, num: Option<u64>, c: ConditionView) -> bool {
    if is_number_op(c.op) {
        match (num, c.number) {
            (Some(x), Some(y)) => if c.op == "gt"@ {
                less(y, x)
            } else if c.op == "lt"@ {
                less(x, y)
            } else if c.op == "ge"@ {
                less(y, x) || equal(x, y)
            } else {
                less(x, y) || equal(x, y)
            },
            _ => false,
        }
    } else {
        let a = haystack(cell_text(cell), c.ignore_case);
        let b = haystack(cell_text(c.value), c.ignore_case);
        if c.op == "eq"@ {
            a == b
        } else if c.op == "ne"@ {
            a != b
        } else if c.op == "contains"@ {
            contains_text(a, b)
        } else if c.op == "not_contains"@ {
            !contains_text(a, b)
        } else {
            false
        }
    }
}

pub fn cell_matches(cell: &Value, num: Option<u64>, c: &Condition) -> (r: bool)
    ensures
        r == meets(cell.deep_view(), num, c.deep_view()),
{
    let op = c.op.as_str();
    if same(op, "gt") || same(op, "lt") || same(op, "ge") || same(op, "le") {
        match (num, c.number) {
            (Some(x), Some(y)) => if same(op, "gt") {
                bits_less(y, x)
            } else if same(op, "lt") {
                bits_less(x, y)
            } else if same(op, "ge") {
                bits_less(y, x) || bits_equal(x, y)
            } else {
                bits_less(x, y) || bits_equal(x, y)
            },
            _ => false,
        }
    } else {
        let a = make_haystack(cell_to_string(cell).as_str(), c.ignore_case);
        let b = make_haystack(cell_to_string(&c.value).as_str(), c.ignore_case);
        if same(op, "eq") {
            same(a.as_str(), b.as_str())
        } else if same(op, "ne") {
            !same(a.as_str(), b.as_str())
        } else if same(op, "contains") {
            has_text(a.as_str(), b.as_str())
        } else if same(op, "not_contains") {
            !has_text(a.as_str(), b.as_str())
        } else {
            false
        }
    }
}

/// The condition that an object describes; `number` is what its value reads as.
pub open spec fn condition_of(j: Json, number: Option<u64>) -> ConditionView {
    ConditionView {
        op: match as_text(field(j, "op"@)) {
            Some(op) => op,
            None => "eq"@,
        },
        value: match field(j, "value"@) {
            Some(v) => v,
            None => Json::Null,
        },
        number,
        ignore_case: flag_at(j, "ignore_case"@) == Some(true),
    }
}

pub fn read_condition(j: &Value, number: Option<u64>) -> (r: Condition)
    ensures
        r.deep_view() == condition_of(j.deep_view(), number),
{
    Condition {
        op: match j.text_at("op") {
            Some(op) => copy_text(op),
            None => copy_text("eq"),
        },
        value: match j.get("value") {
            Some(v) => v.dup(),
            None => Value::Null,
        },
        number,
        ignore_case: match opt_flag(j, "ignore_case") {
            Some(b) => b,
            None => false,
        },
    }
}

/// A condition on column `c` of row `r`.
pub open spec fn row_meets(
    rows: RowsView,
    nums: Seq<Seq<Option<u64>>>,
    r: int,
    c: int,
    cond: ConditionView,
) -> bool {
    meets(cell_at(rows[r], c), num_at(nums, r, c), cond)
}

fn row_matches(rows: &Rows, nums: &Nums, r: usize, c: usize, cond: &Condition) -> (b: bool)
    requires
        r < rows@.len(),
    ensures
        b == row_meets(
            rows.deep_view(),
            nums_view(nums@),
            r as int,
            c as int,
            cond.deep_view(),
        ),
{
    assert(rows.deep_view()[r as int] == rows@[r as int].deep_view());
    let cell = copy_cell(&rows[r], c);
    cell_matches(&cell, number_of(nums, r, c), cond)
}

/// Whether row `r` meets all, or any, of the conditions.
pub open spec fn row_passes(
    rows: RowsView,
    nums: Seq<Seq<Option<u64>>>,
    r: int,
    conds: Seq<(usize, ConditionView)>,
    any: bool,
) -> bool {
    if any {
        exists|k: int|
            0 <= k < conds.len() && row_meets(
                rows,
                nums,
                r,
                #[trigger] conds[k].0 as int,
                conds[k].1,
            )
    } else {
        forall|k: int|
            0 <= k < conds.len() ==> row_meets(
                rows,
                nums,
                r,
                #[trigger] conds[k].0 as int,
                conds[k].1,
            )
    }
}

pub open spec fn conds_view(conds: Seq<(usize, Condition)>) -> Seq<(usize, ConditionView)> {
    Seq::new(conds.len(), |i: int| (conds[i].0, conds[i].1.deep_view()))
}

fn passes(rows: &Rows, nums: &Nums, r: usize, conds: &Vec<(usize, Condition)>, any: bool) -> (b:
    bool)
    requires
        r < rows@.len(),
    ensures
        b == row_passes(
            rows.deep_view(),
            nums_view(nums@),
            r as int,
            conds_view(conds@),
            any,
        ),
{
    let ghost rv = rows.deep_view();
    let ghost nv = nums_view(nums@);
    let ghost cv = conds_view(conds@);
    let mut k: usize = 0;
    while k < conds.len()
        invariant
            k <= conds@.len(),
            r < rows@.len(),
            rv == rows.deep_view(),
            nv == nums_view(nums@),
            cv == conds_view(conds@),
            forall|m: int|
                0 <= m < k ==> row_meets(
                    rv,
                    nv,
                    r as int,
                    #[trigger] cv[m].0 as int,
                    cv[m].1,
                ) == !any,
        decreases conds@.len() - k,
    {
        assert(cv[k as int] == (conds@[k as int].0, conds@[k as int].1.deep_view()));
        let ok = row_matches(rows, nums, r, conds[k].0, &conds[k].1);
        assert(ok == row_meets(rv, nv, r as int, cv[k as int].0 as int, cv[k as int].1));
        if ok == any {
            return any;
        }
        k = k + 1;
    }
    !any
}

/// The rows from `start` up to `n` that pass.
pub open spec fn passing_rows(
    rows: RowsView,
    nums: Seq<Seq<Option<u64>>>,
    start: int,
    conds: Seq<(usize, ConditionView)>,
    any: bool,
    n: int,
) -> RowsView
    decreases n - start,
{
    if n <= start || n > rows.len() {
        Seq::empty()
    } else {
        let before = passing_rows(rows, nums, start, conds, any, n - 1);
        if row_passes(rows, nums, n - 1, conds, any) {
            before.push(rows[n - 1])
        } else {
            before
        }
    }
}

/// Keeps the data rows that meet all, or any, of the conditions.
pub fn op_sheet_where(
    rows: &Rows,
    nums: &Nums,
    header: bool,
    conds: &Vec<(usize, Condition)>,
    any: bool,
) -> (r: (Rows, usize))
    ensures
        ({
            let rv = rows.deep_view();
            let start = data_start(header, rv);
            let kept = passing_rows(
                rv,
                nums_view(nums@),
                start,
                conds_view(conds@),
                any,
                rv.len() as int,
            );
            &&& r.0.deep_view() == under_header(rv, start, kept)
            &&& r.1 == kept.len()
        }),
{
    let start = first_data_row(header, rows);
    let ghost rv = rows.deep_view();
    let ghost nv = nums_view(nums@);
    let ghost cv = conds_view(conds@);
    let mut kept: Rows = Vec::new();
    let mut i: usize = start;
    assert(kept.deep_view() =~= Seq::<Seq<Json>>::empty());
    while i < rows.len()
        invariant
            start <= i <= rows@.len(),
            rv == rows.deep_view(),
            nv == nums_view(nums@),
            cv == conds_view(conds@),
            kept.deep_view() == passing_rows(rv, nv, start as int, cv, any, i as int),
        decreases rows@.len() - i,
    {
        assert(rv[i as int] == rows@[i as int].deep_view());
        if passes(rows, nums, i, conds, any) {
            push_deep(&mut kept, copy_values(&rows[i]));
        }
        i = i + 1;
    }
    assert(kept@.len() == kept.deep_view().len());
    let n = kept.len();
    (join_header(rows, start, kept), n)
}

/// A row meets two conditions where it meets each of them, and any of two where it meets
/// one of them.
pub proof fn filters_compose(
    rows: RowsView,
    nums: Seq<Seq<Option<u64>>>,
    a: (usize, ConditionView),
    b: (usize, ConditionView),
    r: int,
)
    ensures
        row_passes(rows, nums, r, seq![a, b], false) <==> row_passes(rows, nums, r, seq![a], false)
            && row_passes(rows, nums, r, seq![b], false),
        row_passes(rows, nums, r, seq![a, b], true) <==> row_passes(rows, nums, r, seq![a], true)
            || row_passes(rows, nums, r, seq![b], true),
{
    let s = seq![a, b];
    let sa = seq![a];
    let sb = seq![b];
    assert(s[0] == a && s[1] == b && sa[0] == a && sb[0] == b);
}

/// The kept rows are no more than the data rows.
pub proof fn kept_is_at_most_all(
    rows: RowsView,
    nums: Seq<Seq<Option<u64>>>,
    start: int,
    conds: Seq<(usize, ConditionView)>,
    any: bool,
    n: int,
)
    requires
        0 <= start <= n <= rows.len(),
    ensures
        passing_rows(rows, nums, start, conds, any, n).len() <= n - start,
    decreases n - start,
{
    if n > start {
        kept_is_at_most_all(rows, nums, start, conds, any, n - 1);
    }
}

/// The conditions that the options list; `numbers` holds what each value reads as.
pub open spec fn conds_among(
    a: Seq<Json>,
    numbers: Seq<Option<u64>>,
    header: bool,
    rows: RowsView,
    n: nat,
) -> Result<Seq<(usize, ConditionView)>, Seq<char>>
    decreases n,
{
    if n == 0 || n > a.len() {
        Ok(Seq::empty())
    } else {
        match conds_among(a, numbers, header, rows, (n - 1) as nat) {
            Err(e) => Err(e),
            Ok(before) => match resolved_col(
                field(a[n - 1], "column"@),
                header,
                rows,
                "column must be a name or 0-based index"@,
            ) {
                Err(e) => Err(e),
                Ok(c) => Ok(
                    before.push((c, condition_of(a[n - 1], reading_at(numbers, n - 1)))),
                ),
            },
        }
    }
}

/// Reading `i`; none where there is none.
pub open spec fn reading_at(numbers: Seq<Option<u64>>, i: int) -> Option<u64> {
    if 0 <= i < numbers.len() {
        numbers[i]
    } else {
        None
    }
}

pub open spec fn wanted_conds(
    opts: Json,
    numbers: Seq<Option<u64>>,
    header: bool,
    rows: RowsView,
) -> Result<Seq<(usize, ConditionView)>, Seq<char>> {
    match as_array(field(opts, "conditions"@)) {
        None => Err("missing conditions (array of {column, op?, value})"@),
        Some(a) => if a.len() == 0 {
            Err("conditions must list at least one predicate"@)
        } else {
            conds_among(a, numbers, header, rows, a.len())
        },
    }
}

proof fn lemma_conds_fault(
    a: Seq<Json>,
    numbers: Seq<Option<u64>>,
    header: bool,
    rows: RowsView,
    i: nat,
    n: nat,
)
    requires
        i <= n <= a.len(),
        conds_among(a, numbers, header, rows, i) is Err,
    ensures
        conds_among(a, numbers, header, rows, n) == conds_among(a, numbers, header, rows, i),
    decreases n - i,
{
    if i < n {
        lemma_conds_fault(a, numbers, header, rows, i, (n - 1) as nat);
    }
}

pub fn read_conditions(opts: &Value, numbers: &Vec<Option<u64>>, header: bool, rows: &Rows) -> (r:
    Result<Vec<(usize, Condition)>, String>)
    ensures
        match r {
            Ok(k) => wanted_conds(opts.deep_view(), numbers@, header, rows.deep_view()) == Ok::<
                Seq<(usize, ConditionView)>,
                Seq<char>,
            >(conds_view(k@)),
            Err(e) => wanted_conds(opts.deep_view(), numbers@, header, rows.deep_view()) == Err::<
                Seq<(usize, ConditionView)>,
                Seq<char>,
            >(e@),
        },
{
    let a = match opts.array_at("conditions") {
        None => {
            return Err(copy_text("missing conditions (array of {column, op?, value})"));
        },
        Some(a) => a,
    };
    if a.len() == 0 {
        return Err(copy_text("conditions must list at least one predicate"));
    }
    let ghost av = a.deep_view();
    let ghost rv = rows.deep_view();
    let mut out: Vec<(usize, Condition)> = Vec::new();
    let mut i: usize = 0;
    assert(conds_view(out@) =~= Seq::<(usize, ConditionView)>::empty());
    while i < a.len()
        invariant
            i <= a@.len(),
            av == a.deep_view(),
            rv == rows.deep_view(),
            av.len() > 0,
            as_array(field(opts.deep_view(), "conditions"@)) == Some(av),
            conds_among(av, numbers@, header, rv, i as nat) == Ok::<
                Seq<(usize, ConditionView)>,
                Seq<char>,
            >(conds_view(out@)),
        decreases a@.len() - i,
    {
        assert(av[i as int] == a@[i as int].deep_view());
        match resolve_col(a[i].get("column"), header, rows) {
            Ok(c) => {
                let number = if i < numbers.len() {
                    numbers[i]
                } else {
                    None
                };
                let cond = read_condition(&a[i], number);
                let ghost before = conds_view(out@);
                out.push((c, cond));
                assert(conds_view(out@) =~= before.push((c, cond.deep_view())));
            },
            Err(e) => {
                proof {
                    lemma_conds_fault(av, numbers@, header, rv, (i + 1) as nat, av.len());
                }
                return Err(e);
            },
        }
        i = i + 1;
    }
    Ok(out)
}

/// Keeps the data rows whose cell in a column meets a condition; says how many were
/// kept and how many removed.
pub fn op_sheet_filter(rows: &Rows, nums: &Nums, header: bool, c: usize, cond: Condition) -> (r: (
    Rows,
    usize,
    usize,
))
    ensures
        ({
            let rv = rows.deep_view();
            let start = data_start(header, rv);
            let kept = passing_rows(
                rv,
                nums_view(nums@),
                start,
                seq![(c, cond.deep_view())],
                false,
                rv.len() as int,
            );
            &&& r.0.deep_view() == under_header(rv, start, kept)
            &&& r.1 == kept.len()
            &&& r.1 + r.2 == rv.len() - start
        }),
{
    let start = first_data_row(header, rows);
    let mut conds: Vec<(usize, Condition)> = Vec::new();
    let ghost cv = cond.deep_view();
    conds.push((c, cond));
    assert(conds_view(conds@) =~= seq![(c, cv)]);
    let (out, kept) = op_sheet_where(rows, nums, header, &conds, false);
    proof {
        kept_is_at_most_all(
            rows.deep_view(),
            nums_view(nums@),
            start as int,
            conds_view(conds@),
            false,
            rows@.len() as int,
        );
    }
    (out, kept, rows.len() - start - kept)
}

/// The number of data rows whose cell in a column meets a condition.
pub fn op_sheet_countif(rows: &Rows, nums: &Nums, header: bool, c: usize, cond: Condition) -> (r:
    usize)
    ensures
        ({
            let rv = rows.deep_view();
            r == passing_rows(
                rv,
                nums_view(nums@),
                data_start(header, rv),
                seq![(c, cond.deep_view())],
                false,
                rv.len() as int,
            ).len()
        }),
{
    let (_, kept, _) = op_sheet_filter(rows, nums, header, c, cond);
    kept
}

/// The numbers of column `s` in the rows from `start` up to `n` that meet a condition
/// on column `c`.
pub open spec fn passing_numbers(
    rows: RowsView,
    nums: Seq<Seq<Option<u64>>>,
    start: int,
    c: int,
    cond: ConditionView,
    s: int,
    n: int,
) -> Seq<u64>
    decreases n - start,
{
    if n <= start || n > rows.len() {
        Seq::empty()
    } else {
        let before = passing_numbers(rows, nums, start, c, cond, s, n - 1);
        if row_meets(rows, nums, n - 1, c, cond) {
            match num_at(nums, n - 1, s) {
                Some(x) => before.push(x),
                None => before,
            }
        } else {
            before
        }
    }
}

/// The number of rows from `start` up to `n` that meet a condition.
pub open spec fn passing_count(
    rows: RowsView,
    nums: Seq<Seq<Option<u64>>>,
    start: int,
    c: int,
    cond: ConditionView,
    n: int,
) -> nat
    decreases n - start,
{
    if n <= start || n > rows.len() {
        0
    } else {
        passing_count(rows, nums, start, c, cond, n - 1) + (if row_meets(
            rows,
            nums,
            n - 1,
            c,
            cond,
        ) {
            1nat
        } else {
            0nat
        })
    }
}

/// The numbers to add up over the rows that meet a condition, in order, and the number
/// of those rows.
pub fn op_sheet_sumif(
    rows: &Rows,
    nums: &Nums,
    header: bool,
    c: usize,
    cond: &Condition,
    s: usize,
) -> (r: (Vec<u64>, usize))
    ensures
        ({
            let rv = rows.deep_view();
            let start = data_start(header, rv);
            &&& r.0@ == passing_numbers(
                rv,
                nums_view(nums@),
                start,
                c as int,
                cond.deep_view(),
                s as int,
                rv.len() as int,
            )
            &&& r.1 == passing_count(
                rv,
                nums_view(nums@),
                start,
                c as int,
                cond.deep_view(),
                rv.len() as int,
            )
        }),
{
    let start = first_data_row(header, rows);
    let ghost rv = rows.deep_view();
    let ghost nv = nums_view(nums@);
    let mut out: Vec<u64> = Vec::new();
    let mut count: usize = 0;
    let mut i: usize = start;
    while i < rows.len()
        invariant
            start <= i <= rows@.len(),
            rv == rows.deep_view(),
            nv == nums_view(nums@),
            count <= i - start,
            out@ == passing_numbers(
                rv,
                nv,
                start as int,
                c as int,
                cond.deep_view(),
                s as int,
                i as int,
            ),
            count == passing_count(rv, nv, start as int, c as int, cond.deep_view(), i as int),
        decreases rows@.len() - i,
    {
        if row_matches(rows, nums, i, c, cond) {
            count = count + 1;
            match number_of(nums, i, s) {
                Some(x) => {
                    out.push(x);
                },
                None => {},
            }
        }
        i = i + 1;
    }
    (out, count)
}

/// The first data row, from `i` on, whose cell in column `c` displays as `want`, or
/// the number of rows.
pub open spec fn lookup_row(rows: RowsView, c: int, want: Seq<char>, ic: bool, i: int) -> int
    decreases rows.len() - i,
{
    if 0 <= i < rows.len() && haystack(cell_text(cell_at(rows[i], c)), ic) != want {
        lookup_row(rows, c, want, ic, i + 1)
    } else {
        i
    }
}

/// Looks a key up in column `l`: the data row, counted from 0, and its cell in column
/// `v`.
pub fn op_sheet_lookup(
    rows: &Rows,
    header: bool,
    l: usize,
    v: usize,
    key: &str,
    ignore_case: bool,
) -> (r: Option<(usize, Value)>)
    ensures
        ({
            let rv = rows.deep_view();
            let start = data_start(header, rv);
            let p = lookup_row(rv, l as int, haystack(key@, ignore_case), ignore_case, start);
            match r {
                Some(found) => p < rv.len() && found.0 == p - start && found.1.deep_view()
                    == cell_at(rv[p], v as int),
                None => p >= rv.len(),
            }
        }),
{
    let start = first_data_row(header, rows);
    let ghost rv = rows.deep_view();
    let want = make_haystack(key, ignore_case);
    let mut i: usize = start;
    while i < rows.len()
        invariant
            start <= i <= rows@.len(),
            rv == rows.deep_view(),
            start == data_start(header, rv),
            want@ == haystack(key@, ignore_case),
            lookup_row(rv, l as int, want@, ignore_case, start as int) == lookup_row(
                rv,
                l as int,
                want@,
                ignore_case,
                i as int,
            ),
        decreases rows@.len() - i,
    {
        assert(rv[i as int] == rows@[i as int].deep_view());
        let t = cell_to_string(&copy_cell(&rows[i], l));
        if same(make_haystack(t.as_str(), ignore_case).as_str(), want.as_str()) {
            return Some((i - start, copy_cell(&rows[i], v)));
        }
        i = i + 1;
    }
    None
}

// ── what conditions keep ────────────────────────────────────────────────────

/// Whether a text stands somewhere in another.
pub open spec fn occurs_in(part: Seq<char>, s: Seq<char>) -> bool {
    exists|k: int|
        #![trigger s.subrange(k, k + part.len())]
        0 <= k && k + part.len() <= s.len() && s.subrange(k, k + part.len()) == part
}

/// A text in small letters where case does not count.
pub open spec fn without_case(s: Seq<char>, fold: bool) -> Seq<char> {
    if fold {
        lowercase(s)
    } else {
        s
    }
}

/// Whether numbers are there and neither is a NaN.
pub open spec fn are_numbers(x: Option<u64>, y: Option<u64>) -> bool {
    x is Some && y is Some && !is_nan(x->0) && !is_nan(y->0)
}

/// Whether a row is one that a condition on a column is about.
pub open spec fn holds_in(
    rows: RowsView,
    nums: Seq<Seq<Option<u64>>>,
    r: int,
    c: int,
    cond: ConditionView,
) -> bool {
    let t = without_case(shown_in(rows, r, c), cond.ignore_case);
    let want = without_case(cell_text(cond.value), cond.ignore_case);
    let x = number_at(nums, r, c);
    let y = cond.number;
    ||| cond.op == "eq"@ && t == want
    ||| cond.op == "ne"@ && t != want
    ||| cond.op == "contains"@ && occurs_in(want, t)
    ||| cond.op == "not_contains"@ && !occurs_in(want, t)
    ||| cond.op == "gt"@ && are_numbers(x, y) && rank(x->0) > rank(y->0)
    ||| cond.op == "ge"@ && are_numbers(x, y) && rank(x->0) >= rank(y->0)
    ||| cond.op == "lt"@ && are_numbers(x, y) && rank(x->0) < rank(y->0)
    ||| cond.op == "le"@ && are_numbers(x, y) && rank(x->0) <= rank(y->0)
}

proof fn lemma_occurs(s: Seq<char>, part: Seq<char>, i: int)
    requires
        0 <= i <= s.len() + 1,
    ensures
        find_from(s, part, i) is Some <==> exists|k: int|
            #![trigger s.subrange(k, k + part.len())]
            i <= k && k + part.len() <= s.len() && s.subrange(k, k + part.len()) == part,
    decreases s.len() + 1 - i,
{
    if i <= s.len() {
        lemma_occurs(s, part, i + 1);
        if matches_at(s, part, i) {
            assert(s.subrange(i, i + part.len()) == part);
        }
    }
}

proof fn lemma_holds(
    rows: RowsView,
    nums: Seq<Seq<Option<u64>>>,
    r: int,
    c: int,
    cond: ConditionView,
)
    ensures
        row_meets(rows, nums, r, c, cond) == holds_in(rows, nums, r, c, cond),
{
    reveal_strlit("eq");
    reveal_strlit("ne");
    reveal_strlit("gt");
    reveal_strlit("ge");
    reveal_strlit("lt");
    reveal_strlit("le");
    reveal_strlit("contains");
    reveal_strlit("not_contains");
    assert("contains"@.len() == 8 && "not_contains"@.len() == 12);
    assert("eq"@[0] == 'e' && "ne"@[0] == 'n' && "gt"@[0] == 'g' && "ge"@[0] == 'g');
    assert("lt"@[0] == 'l' && "le"@[0] == 'l');
    assert("gt"@[1] == 't' && "ge"@[1] == 'e' && "lt"@[1] == 't' && "le"@[1] == 'e');
    assert("eq"@.len() == 2 && "ne"@.len() == 2 && "gt"@.len() == 2 && "ge"@.len() == 2);
    assert("lt"@.len() == 2 && "le"@.len() == 2);
    let t = without_case(shown_in(rows, r, c), cond.ignore_case);
    let want = without_case(cell_text(cond.value), cond.ignore_case);
    lemma_occurs(t, want, 0);
}

/// Whether a row meets each condition, or one of them.
pub open spec fn is_wanted(
    rows: RowsView,
    nums: Seq<Seq<Option<u64>>>,
    header: bool,
    r: int,
    conds: Seq<(usize, ConditionView)>,
    any: bool,
) -> bool {
    &&& 0 <= r < rows.len()
    &&& header ==> r >= 1
    &&& if any {
        exists|k: int|
            0 <= k < conds.len() && holds_in(rows, nums, r, (#[trigger] conds[k]).0 as int, conds[k].1)
    } else {
        forall|k: int|
            0 <= k < conds.len() ==> holds_in(
                rows,
                nums,
                r,
                (#[trigger] conds[k]).0 as int,
                conds[k].1,
            )
    }
}

/// Whether `at` lists rows from the top down.
pub open spec fn goes_down(at: Seq<int>) -> bool {
    forall|a: int, b: int| 0 <= a < b < at.len() ==> #[trigger] at[a] < #[trigger] at[b]
}

/// Whether `out` is a sheet with its header, where it has one, and of its data rows just
/// those among `at`, in their order.
pub open spec fn are_rows_left(rows: RowsView, header: bool, out: RowsView, at: Seq<int>) -> bool {
    let start: int = if header && rows.len() > 0 {
        1
    } else {
        0
    };
    &&& goes_down(at)
    &&& out.len() == start + at.len()
    &&& start == 1 ==> out[0] == rows[0]
    &&& forall|i: int|
        0 <= i < at.len() ==> start <= #[trigger] at[i] < rows.len() && out[start + i]
            == rows[at[i]]
}

proof fn lemma_passing(
    rows: RowsView,
    nums: Seq<Seq<Option<u64>>>,
    start: int,
    conds: Seq<(usize, ConditionView)>,
    any: bool,
    n: int,
) -> (at: Seq<int>)
    requires
        0 <= start <= n <= rows.len(),
    ensures
        goes_down(at),
        at.len() == passing_rows(rows, nums, start, conds, any, n).len(),
        forall|i: int|
            0 <= i < at.len() ==> start <= #[trigger] at[i] < n && row_passes(
                rows,
                nums,
                at[i],
                conds,
                any,
            ) && passing_rows(rows, nums, start, conds, any, n)[i] == rows[at[i]],
        forall|r: int|
            start <= r < n && #[trigger] row_passes(rows, nums, r, conds, any) ==> at.contains(r),
    decreases n - start,
{
    if n <= start {
        Seq::empty()
    } else {
        let before = lemma_passing(rows, nums, start, conds, any, n - 1);
        let was = passing_rows(rows, nums, start, conds, any, n - 1);
        if row_passes(rows, nums, n - 1, conds, any) {
            let at = before.push(n - 1);
            let now = was.push(rows[n - 1]);
            assert forall|i: int| 0 <= i < at.len() implies start <= #[trigger] at[i] < n
                && row_passes(rows, nums, at[i], conds, any) && now[i] == rows[at[i]] by {
                if i < before.len() {
                    assert(at[i] == before[i]);
                }
            }
            assert forall|r: int|
                start <= r < n && #[trigger] row_passes(
                    rows,
                    nums,
                    r,
                    conds,
                    any,
                ) implies at.contains(r) by {
                if r < n - 1 {
                    assert(before.contains(r));
                    let i = choose|i: int| 0 <= i < before.len() && before[i] == r;
                    assert(at[i] == r);
                } else {
                    assert(at[before.len() as int] == r);
                }
            }
            at
        } else {
            before
        }
    }
}

/// A sheet that is filtered keeps just the data rows that meet the conditions, in order: for
/// equal and other texts, for a part of a text that is there or not, and for numbers that are
/// larger or smaller; it keeps none for any other comparison.
pub proof fn filters_keep_what_is_wanted(
    rows: RowsView,
    nums: Seq<Seq<Option<u64>>>,
    header: bool,
    conds: Seq<(usize, ConditionView)>,
    any: bool,
) -> (at: Seq<int>)
    ensures
        ({
            let start = data_start(header, rows);
            let kept = passing_rows(rows, nums, start, conds, any, rows.len() as int);
            &&& are_rows_left(rows, header, under_header(rows, start, kept), at)
            &&& kept.len() == at.len()
            &&& forall|r: int| #[trigger]
                is_wanted(rows, nums, header, r, conds, any) <==> at.contains(r)
        }),
{
    let start = data_start(header, rows);
    let at = lemma_passing(rows, nums, start, conds, any, rows.len() as int);
    assert forall|r: int| #[trigger]
        is_wanted(rows, nums, header, r, conds, any) <==> at.contains(r) by {
        if 0 <= r < rows.len() {
            assert(row_passes(rows, nums, r, conds, any) <==> (if any {
                exists|k: int|
                    0 <= k < conds.len() && holds_in(
                        rows,
                        nums,
                        r,
                        (#[trigger] conds[k]).0 as int,
                        conds[k].1,
                    )
            } else {
                forall|k: int|
                    0 <= k < conds.len() ==> holds_in(
                        rows,
                        nums,
                        r,
                        (#[trigger] conds[k]).0 as int,
                        conds[k].1,
                    )
            })) by {
                assert forall|k: int| 0 <= k < conds.len() implies row_meets(
                    rows,
                    nums,
                    r,
                    (#[trigger] conds[k]).0 as int,
                    conds[k].1,
                ) == holds_in(rows, nums, r, conds[k].0 as int, conds[k].1) by {
                    lemma_holds(rows, nums, r, conds[k].0 as int, conds[k].1);
                }
            }
        }
        if is_wanted(rows, nums, header, r, conds, any) {
            assert(row_passes(rows, nums, r, conds, any));
        }
        if at.contains(r) {
            let i = choose|i: int| 0 <= i < at.len() && at[i] == r;
            assert(row_passes(rows, nums, at[i], conds, any));
        }
    }
    at
}

/// What is added up over a condition is just the numbers of the rows that meet it, in order,
/// and what is counted is those rows.
pub proof fn conditional_sums_take_what_is_wanted(
    rows: RowsView,
    nums: Seq<Seq<Option<u64>>>,
    header: bool,
    c: usize,
    cond: ConditionView,
    s: int,
) -> (at: Seq<int>)
    ensures
        ({
            let start = data_start(header, rows);
            let n = rows.len() as int;
            &&& goes_down(at)
            &&& forall|r: int| #[trigger]
                is_wanted(rows, nums, header, r, seq![(c, cond)], false) <==> at.contains(r)
            &&& passing_count(rows, nums, start, c as int, cond, n) == at.len()
            &&& passing_numbers(rows, nums, start, c as int, cond, s, n) == at.filter(
                |r: int| number_at(nums, r, s) is Some,
            ).map_values(|r: int| number_at(nums, r, s)->0)
        }),
{
    let start = data_start(header, rows);
    let conds = seq![(c, cond)];
    let at = filters_keep_what_is_wanted(rows, nums, header, conds, false);
    let mine = lemma_sums(rows, nums, start, c as int, cond, s, rows.len() as int);
    assert forall|r: int| at.contains(r) <==> mine.contains(r) by {
        assert(conds[0] == (c, cond));
        if 0 <= r < rows.len() {
            lemma_holds(rows, nums, r, c as int, cond);
            assert(is_wanted(rows, nums, header, r, conds, false) <==> (header ==> r >= 1)
                && holds_in(rows, nums, r, c as int, cond));
        }
        if mine.contains(r) {
            let i = choose|i: int| 0 <= i < mine.len() && mine[i] == r;
            assert(row_meets(rows, nums, mine[i], c as int, cond));
            assert(is_wanted(rows, nums, header, r, conds, false));
        }
        if at.contains(r) {
            assert(is_wanted(rows, nums, header, r, conds, false));
            assert(row_meets(rows, nums, r, c as int, cond));
        }
    }
    lemma_same_list(at, mine);
    at
}

proof fn lemma_same_list(a: Seq<int>, b: Seq<int>)
    requires
        goes_down(a),
        goes_down(b),
        forall|r: int| a.contains(r) <==> b.contains(r),
    ensures
        a == b,
    decreases a.len(),
{
    if a.len() == 0 {
        if b.len() > 0 {
            assert(b.contains(b[0]));
        }
        assert(a =~= b);
    } else if b.len() == 0 {
        assert(a.contains(a[0]));
    } else {
        let x = a[a.len() - 1];
        let y = b[b.len() - 1];
        assert(a.contains(x) && b.contains(y));
        let i = choose|i: int| 0 <= i < b.len() && b[i] == x;
        let j = choose|j: int| 0 <= j < a.len() && a[j] == y;
        assert(x <= y) by {
            if i < b.len() - 1 {
                assert(b[i] < b[b.len() - 1]);
            }
        }
        assert(y <= x) by {
            if j < a.len() - 1 {
                assert(a[j] < a[a.len() - 1]);
            }
        }
        let (c, d) = (a.drop_last(), b.drop_last());
        assert forall|r: int| c.contains(r) <==> d.contains(r) by {
            if c.contains(r) {
                let k = choose|k: int| 0 <= k < c.len() && c[k] == r;
                assert(a[k] < a[a.len() - 1]);
                assert(a.contains(r));
                let m = choose|m: int| 0 <= m < b.len() && b[m] == r;
                assert(m < b.len() - 1);
                assert(d[m] == r);
            }
            if d.contains(r) {
                let k = choose|k: int| 0 <= k < d.len() && d[k] == r;
                assert(b[k] < b[b.len() - 1]);
                assert(b.contains(r));
                let m = choose|m: int| 0 <= m < a.len() && a[m] == r;
                assert(m < a.len() - 1);
                assert(c[m] == r);
            }
        }
        lemma_same_list(c, d);
        assert(a =~= c.push(x));
        assert(b =~= d.push(y));
    }
}

proof fn lemma_sums(
    rows: RowsView,
    nums: Seq<Seq<Option<u64>>>,
    start: int,
    c: int,
    cond: ConditionView,
    s: int,
    n: int,
) -> (at: Seq<int>)
    requires
        0 <= start <= n <= rows.len(),
    ensures
        goes_down(at),
        forall|i: int|
            0 <= i < at.len() ==> start <= #[trigger] at[i] < n && row_meets(
                rows,
                nums,
                at[i],
                c,
                cond,
            ),
        forall|r: int|
            start <= r < n && #[trigger] row_meets(rows, nums, r, c, cond) ==> at.contains(r),
        passing_count(rows, nums, start, c, cond, n) == at.len(),
        passing_numbers(rows, nums, start, c, cond, s, n) == at.filter(
            |r: int| number_at(nums, r, s) is Some,
        ).map_values(|r: int| number_at(nums, r, s)->0),
    decreases n - start,
{
    reveal(Seq::filter);
    let has = |r: int| number_at(nums, r, s) is Some;
    let get = |r: int| number_at(nums, r, s)->0;
    if n <= start {
        let at = Seq::<int>::empty();
        assert(at.filter(has).map_values(get) =~= Seq::<u64>::empty());
        at
    } else {
        let before = lemma_sums(rows, nums, start, c, cond, s, n - 1);
        if row_meets(rows, nums, n - 1, c, cond) {
            let at = before.push(n - 1);
            assert(at.drop_last() =~= before);
            if has(n - 1) {
                assert(at.filter(has) == before.filter(has).push(n - 1));
                assert(at.filter(has).map_values(get) =~= before.filter(has).map_values(get).push(
                    get(n - 1),
                ));
            } else {
                assert(at.filter(has) == before.filter(has));
            }
            assert forall|i: int| 0 <= i < at.len() implies start <= #[trigger] at[i] < n
                && row_meets(rows, nums, at[i], c, cond) by {
                if i < before.len() {
                    assert(at[i] == before[i]);
                }
            }
            assert forall|r: int|
                start <= r < n && #[trigger] row_meets(rows, nums, r, c, cond) implies at.contains(
                r,
            ) by {
                if r < n - 1 {
                    assert(before.contains(r));
                    let i = choose|i: int| 0 <= i < before.len() && before[i] == r;
                    assert(at[i] == r);
                } else {
                    assert(at[before.len() as int] == r);
                }
            }
            at
        } else {
            before
        }
    }
}

/// A key is found in the first data row that shows it, and only where one does.
pub proof fn lookups_find_the_first(
    rows: RowsView,
    header: bool,
    c: int,
    key: Seq<char>,
    fold: bool,
)
    ensures
        ({
            let start: int = if header && rows.len() > 0 {
                1
            } else {
                0
            };
            let p = lookup_row(rows, c, haystack(key, fold), fold, data_start(header, rows));
            &&& start <= p <= rows.len()
            &&& forall|r: int|
                start <= r < p ==> without_case(#[trigger] shown_in(rows, r, c), fold)
                    != without_case(key, fold)
            &&& p < rows.len() ==> without_case(shown_in(rows, p, c), fold) == without_case(
                key,
                fold,
            )
        }),
{
    lemma_lookup(rows, c, haystack(key, fold), fold, data_start(header, rows));
}

proof fn lemma_lookup(rows: RowsView, c: int, want: Seq<char>, fold: bool, i: int)
    requires
        0 <= i <= rows.len(),
    ensures
        i <= lookup_row(rows, c, want, fold, i) <= rows.len(),
        forall|r: int|
            i <= r < lookup_row(rows, c, want, fold, i) ==> without_case(
                #[trigger] shown_in(rows, r, c),
                fold,
            ) != want,
        lookup_row(rows, c, want, fold, i) < rows.len() ==> without_case(
            shown_in(rows, lookup_row(rows, c, want, fold, i), c),
            fold,
        ) == want,
    decreases rows.len() - i,
{
    if i < rows.len() && without_case(shown_in(rows, i, c), fold) != want {
        lemma_lookup(rows, c, want, fold, i + 1);
    }
}

// ── what ranks count ────────────────────────────────────────────────────────

/// Whether a number comes ahead of another one, upwards or downwards.
pub open spec fn is_ahead(v: u64, x: u64, ascending: bool) -> bool {
    !is_nan(v) && !is_nan(x) && if ascending {
        rank(v) < rank(x)
    } else {
        rank(v) > rank(x)
    }
}

/// The rank of a number is one more than the numbers ahead of it, or than the values that
/// these have.
pub proof fn ranks_count_what_is_ahead(vals: Seq<u64>, x: u64, ascending: bool)
    requires
        !is_nan(x),
    ensures
        rank_among(vals, x, ascending, false) == 1 + vals.filter(
            |v: u64| is_ahead(v, x, ascending),
        ).len(),
        rank_among(vals, x, ascending, true) == 1 + vals.filter(
            |v: u64| is_ahead(v, x, ascending),
        ).map_values(|v: u64| rank(v)).to_set().len(),
        vals.filter(|v: u64| is_ahead(v, x, ascending)).map_values(
            |v: u64| rank(v),
        ).to_set().finite(),
{
    lemma_ahead(vals, x, ascending, vals.len());
    assert(vals.take(vals.len() as int) =~= vals);
}

proof fn lemma_ahead(vals: Seq<u64>, x: u64, ascending: bool, n: nat)
    requires
        !is_nan(x),
        n <= vals.len(),
    ensures
        better_count(vals, x, ascending, n) == vals.take(n as int).filter(
            |v: u64| is_ahead(v, x, ascending),
        ).len(),
        better_distinct(vals, x, ascending, n) == vals.take(n as int).filter(
            |v: u64| is_ahead(v, x, ascending),
        ).map_values(|v: u64| rank(v)).to_set().len(),
        vals.take(n as int).filter(|v: u64| is_ahead(v, x, ascending)).map_values(
            |v: u64| rank(v),
        ).to_set().finite(),
    decreases n,
{
    reveal(Seq::filter);
    let ahead = |v: u64| is_ahead(v, x, ascending);
    let by = |v: u64| rank(v);
    let part = vals.take(n as int);
    vstd::seq_lib::seq_to_set_is_finite(part.filter(ahead).map_values(by));
    if n == 0 {
        assert(part.filter(ahead).map_values(by) =~= Seq::<int>::empty());
        assert(part.filter(ahead).map_values(by).to_set() =~= Set::<int>::empty());
    } else {
        let m = n - 1;
        lemma_ahead(vals, x, ascending, m as nat);
        let before = vals.take(m);
        let v = vals[m];
        assert(part.drop_last() =~= before);
        assert(part.last() == v);
        let was = before.filter(ahead);
        let ranks = was.map_values(by);
        if ahead(v) {
            assert(part.filter(ahead) == was.push(v));
            let now = was.push(v).map_values(by);
            assert(now =~= ranks.push(rank(v)));
            assert(now.to_set() =~= ranks.to_set().insert(rank(v))) by {
                assert forall|q: int| now.to_set().contains(q) <==> ranks.to_set().insert(
                    rank(v),
                ).contains(q) by {
                    if now.to_set().contains(q) {
                        let i = choose|i: int| 0 <= i < now.len() && now[i] == q;
                        if i < ranks.len() {
                            assert(ranks[i] == q);
                            assert(ranks.contains(q));
                        }
                    }
                    if ranks.to_set().contains(q) {
                        let i = choose|i: int| 0 <= i < ranks.len() && ranks[i] == q;
                        assert(now[i] == q);
                    }
                    assert(now[ranks.len() as int] == rank(v));
                }
            }
            assert(seen_before(vals, m) <==> ranks.to_set().contains(rank(v))) by {
                if seen_before(vals, m) {
                    let k = choose|k: int| 0 <= k < m && equal(#[trigger] vals[k], vals[m]);
                    assert(before[k] == vals[k]);
                    assert(ahead(before[k]));
                    before.lemma_filter_contains(ahead, k);
                    let i = choose|i: int| 0 <= i < was.len() && was[i] == before[k];
                    assert(ranks[i] == rank(v));
                }
                if ranks.to_set().contains(rank(v)) {
                    let i = choose|i: int| 0 <= i < ranks.len() && ranks[i] == rank(v);
                    before.lemma_filter_pred(ahead, i);
                    assert(ahead(was[i]));
                    assert(was.contains(was[i]));
                    assert(before.contains(was[i])) by {
                        before.lemma_filter_contains_rev(ahead, was[i]);
                    }
                    let k = choose|k: int| 0 <= k < before.len() && before[k] == was[i];
                    assert(vals[k] == was[i]);
                    assert(equal(vals[k], vals[m]));
                }
            }
        } else {
            assert(part.filter(ahead) == was);
        }
    }
}

// ── what sorting by several columns does ────────────────────────────────────

/// Whether each of some rows has a number in a column, or none of them has.
pub open spec fn is_of_one_kind(
    rows: RowsView,
    nums: Seq<Seq<Option<u64>>>,
    header: bool,
    c: int,
) -> bool {
    ||| forall|r: int|
        0 <= r < rows.len() && (header ==> r >= 1) ==> (#[trigger] number_at(nums, r, c) matches Some(
            x,
        ) && !is_nan(x))
    ||| forall|r: int|
        0 <= r < rows.len() && (header ==> r >= 1) ==> #[trigger] number_at(nums, r, c) is None
}

/// Whether row `x` comes before row `y` by a column: by number where both have one, else by
/// text.
pub open spec fn precedes_in(
    rows: RowsView,
    nums: Seq<Seq<Option<u64>>>,
    x: int,
    y: int,
    c: int,
) -> bool {
    match (number_at(nums, x, c), number_at(nums, y, c)) {
        (Some(a), Some(b)) => rank(a) < rank(b),
        _ => comes_before(shown_in(rows, x, c), shown_in(rows, y, c)),
    }
}

/// Whether rows are the same by a column.
pub open spec fn equals_in(
    rows: RowsView,
    nums: Seq<Seq<Option<u64>>>,
    x: int,
    y: int,
    c: int,
) -> bool {
    match (number_at(nums, x, c), number_at(nums, y, c)) {
        (Some(a), Some(b)) => rank(a) == rank(b),
        _ => shown_in(rows, x, c) == shown_in(rows, y, c),
    }
}

/// Whether row `x` stays above row `y`: by the first key by which they differ, upwards or
/// downwards, and where they differ by none as they stood.
pub open spec fn stays_above(
    rows: RowsView,
    nums: Seq<Seq<Option<u64>>>,
    keys: Seq<(usize, bool)>,
    x: int,
    y: int,
) -> bool {
    exists|k: int|
        #![trigger keys.take(k)]
        {
            &&& 0 <= k <= keys.len()
            &&& forall|m: int|
                0 <= m < k ==> equals_in(rows, nums, x, y, (#[trigger] keys[m]).0 as int)
            &&& if k == keys.len() {
                x < y
            } else if keys[k].1 {
                precedes_in(rows, nums, y, x, keys[k].0 as int)
            } else {
                precedes_in(rows, nums, x, y, keys[k].0 as int)
            }
        }
}

/// Whether `out` is a sheet with its data rows sorted by several columns.
pub open spec fn is_multisorting(
    rows: RowsView,
    nums: Seq<Seq<Option<u64>>>,
    header: bool,
    keys: Seq<(usize, bool)>,
    out: RowsView,
    at: Seq<int>,
) -> bool {
    &&& are_rows_moved(rows, header, out, at)
    &&& (forall|k: int|
        0 <= k < keys.len() ==> is_of_one_kind(rows, nums, header, (#[trigger] keys[k]).0 as int))
        ==> forall|a: int, b: int|
        0 <= a < b < at.len() ==> stays_above(rows, nums, keys, #[trigger] at[a], #[trigger] at[b])
}

/// The rows that one kind of cells is asked of.
spec fn is_alike(nums: Seq<Seq<Option<u64>>>, c: int, x: int, y: int, z: int) -> bool {
    ||| {
        &&& number_at(nums, x, c) matches Some(a) && !is_nan(a)
        &&& number_at(nums, y, c) matches Some(b) && !is_nan(b)
        &&& number_at(nums, z, c) matches Some(d) && !is_nan(d)
    }
    ||| number_at(nums, x, c) is None && number_at(nums, y, c) is None && number_at(nums, z, c)
        is None
}

proof fn lemma_key_triple(
    rows: RowsView,
    nums: Seq<Seq<Option<u64>>>,
    key: (usize, bool),
    x: int,
    y: int,
    z: int,
)
    requires
        is_alike(nums, key.0 as int, x, y, z),
    ensures
        key_order(rows, nums, key, x, x) == 0,
        key_order(rows, nums, key, y, x) == -key_order(rows, nums, key, x, y),
        key_order(rows, nums, key, x, y) <= 0 && key_order(rows, nums, key, y, z) <= 0
            ==> key_order(rows, nums, key, x, z) <= 0,
        key_order(rows, nums, key, x, y) <= 0 && key_order(rows, nums, key, y, z) < 0
            ==> key_order(rows, nums, key, x, z) < 0,
        key_order(rows, nums, key, x, y) < 0 && key_order(rows, nums, key, y, z) <= 0
            ==> key_order(rows, nums, key, x, z) < 0,
        key_order(rows, nums, key, x, y) == 0 <==> equals_in(rows, nums, x, y, key.0 as int),
        key_order(rows, nums, key, x, y) < 0 <==> (if key.1 {
            precedes_in(rows, nums, y, x, key.0 as int)
        } else {
            precedes_in(rows, nums, x, y, key.0 as int)
        }),
{
    let c = key.0 as int;
    let a = shown_in(rows, x, c);
    let b = shown_in(rows, y, c);
    let d = shown_in(rows, z, c);
    lemma_text_order(a, b, d, 0);
    lemma_text_order(d, b, a, 0);
    lemma_text_order(b, a, d, 0);
    lemma_text_order(a, d, b, 0);
    lemma_text_order(b, d, a, 0);
    lemma_text_order(d, a, b, 0);
    texts_come_by_their_letters(a, b);
    texts_come_by_their_letters(b, a);
    if !text_less(a, b) && !text_less(b, a) {
        lemma_one_comes_first(a, b);
    }
    if !text_less(b, d) && !text_less(d, b) {
        lemma_one_comes_first(b, d);
    }
}

proof fn lemma_keys_triple(
    rows: RowsView,
    nums: Seq<Seq<Option<u64>>>,
    keys: Seq<(usize, bool)>,
    x: int,
    y: int,
    z: int,
    k: int,
)
    requires
        0 <= k <= keys.len(),
        forall|m: int| 0 <= m < keys.len() ==> is_alike(nums, (#[trigger] keys[m]).0 as int, x, y, z),
    ensures
        !keys_less(rows, nums, keys, x, x, k),
        keys_less(rows, nums, keys, x, y, k) ==> !keys_less(rows, nums, keys, y, x, k),
        keys_less(rows, nums, keys, x, y, k) && keys_less(rows, nums, keys, y, z, k) ==> keys_less(
            rows,
            nums,
            keys,
            x,
            z,
            k,
        ),
        !keys_less(rows, nums, keys, x, y, k) && !keys_less(rows, nums, keys, y, z, k)
            ==> !keys_less(rows, nums, keys, x, z, k),
    decreases keys.len() - k,
{
    if k < keys.len() {
        lemma_keys_triple(rows, nums, keys, x, y, z, k + 1);
        let key = keys[k];
        assert(is_alike(nums, key.0 as int, x, y, z));
        lemma_key_triple(rows, nums, key, x, y, z);
        lemma_key_triple(rows, nums, key, z, y, x);
        lemma_key_triple(rows, nums, key, x, z, y);
        lemma_key_triple(rows, nums, key, y, z, x);
    }
}

proof fn lemma_first_difference(
    rows: RowsView,
    nums: Seq<Seq<Option<u64>>>,
    keys: Seq<(usize, bool)>,
    x: int,
    y: int,
    k: int,
)
    requires
        0 <= k <= keys.len(),
        forall|m: int| 0 <= m < keys.len() ==> is_alike(nums, (#[trigger] keys[m]).0 as int, x, y, x),
        forall|m: int|
            0 <= m < k ==> equals_in(rows, nums, x, y, (#[trigger] keys[m]).0 as int),
        keys_less(rows, nums, keys, x, y, k) || (!keys_less(rows, nums, keys, y, x, k) && x < y),
    ensures
        stays_above(rows, nums, keys, x, y),
    decreases keys.len() - k,
{
    assert(keys.take(k) == keys.take(k));
    if k < keys.len() {
        let key = keys[k];
        assert(is_alike(nums, key.0 as int, x, y, x));
        lemma_key_triple(rows, nums, key, x, y, x);
        lemma_key_triple(rows, nums, key, y, x, y);
        if key_order(rows, nums, key, x, y) == 0 {
            lemma_first_difference(rows, nums, keys, x, y, k + 1);
        }
    }
}

/// Sorting a sheet by several columns keeps each row above another by the first column by
/// which they differ, and loses none.
pub proof fn multisorting_puts_rows_in_order(
    rows: RowsView,
    nums: Seq<Seq<Option<u64>>>,
    header: bool,
    keys: Seq<(usize, bool)>,
    data: RowsView,
) -> (at: Seq<int>)
    requires
        rows.len() <= usize::MAX,
        is_sorted_copy(
            data_rows(rows, data_start(header, rows)),
            data,
            multi_order(rows, nums, keys, data_start(header, rows)),
        ),
    ensures
        is_multisorting(
            rows,
            nums,
            header,
            keys,
            under_header(rows, data_start(header, rows), data),
            at,
        ),
{
    let start = data_start(header, rows);
    let lt = multi_order(rows, nums, keys, start);
    let n = rows.len() - start;
    let at = lemma_moved(rows, header, data, lt);
    if forall|k: int|
        0 <= k < keys.len() ==> is_of_one_kind(rows, nums, header, (#[trigger] keys[k]).0 as int) {
        assert forall|x: int, y: int, z: int, m: int|
            0 <= m < keys.len() && start <= x < rows.len() && start <= y < rows.len() && start <= z
                < rows.len() implies #[trigger] is_alike(nums, keys[m].0 as int, x, y, z) by {
            let c = keys[m].0 as int;
            assert(is_of_one_kind(rows, nums, header, c));
            assert(number_at(nums, x, c) == number_at(nums, x, c));
            assert(number_at(nums, y, c) == number_at(nums, y, c));
            assert(number_at(nums, z, c) == number_at(nums, z, c));
        }
        assert(is_weak_order(lt, n)) by {
            assert forall|x: int| 0 <= x < n implies !#[trigger] lt(x, x) by {
                lemma_keys_triple(rows, nums, keys, start + x, start + x, start + x, 0);
            }
            assert forall|x: int, y: int| 0 <= x < n && 0 <= y < n && #[trigger] lt(
                x,
                y,
            ) implies !lt(y, x) by {
                lemma_keys_triple(rows, nums, keys, start + x, start + y, start + x, 0);
            }
            assert forall|x: int, y: int, z: int|
                0 <= x < n && 0 <= y < n && 0 <= z < n && #[trigger] lt(x, y) && #[trigger] lt(
                    y,
                    z,
                ) implies lt(x, z) by {
                lemma_keys_triple(rows, nums, keys, start + x, start + y, start + z, 0);
            }
            assert forall|x: int, y: int, z: int|
                0 <= x < n && 0 <= y < n && 0 <= z < n && !#[trigger] lt(x, y) && !#[trigger] lt(
                    y,
                    z,
                ) implies !lt(x, z) by {
                lemma_keys_triple(rows, nums, keys, start + x, start + y, start + z, 0);
            }
        }
        assert forall|a: int, b: int| 0 <= a < b < at.len() implies stays_above(
            rows,
            nums,
            keys,
            #[trigger] at[a],
            #[trigger] at[b],
        ) by {
            assert(before(lt, at[a] - start, at[b] - start));
            lemma_first_difference(rows, nums, keys, at[a], at[b], 0);
        }
    }
    at
}

} // verus!
