//! What the columns of a sheet hold: counts, numbers in order, numbers in pairs, and
//! columns of results computed of them.

use crate::columns::{
    append_column, label_of_results, numbers_in, result_at, result_label, with_results,
};
use crate::deck::unsigned;
use crate::deep::tabulate;
use crate::grid::{
    cell_at, column_title, copy_cell, data_start, first_data_row, title_of_column, Rows, RowsView,
};
use crate::groups::{column_readings, readings};
use crate::ordering::{
    below_header, is_blank, is_empty_in, lemma_trimmed_away, num_at, num_key_order, number_at,
    number_of, nums_view, sheet_cell_blank, Nums,
};
use crate::reals::{bits_less, less};
use crate::sorting::{in_order, is_arrangement, is_sorted_copy, is_weak_order, stable_order};
use crate::tables::{count_columns, widest};
use crate::text::{concat3, copy_text, same};
use crate::value::{add_member, as_text, count_value, field, object, text_value, Json, Value};
use vstd::prelude::*;

verus! {

// ── counts ──────────────────────────────────────────────────────────────────

/// What a column holds: its name, how many cells are filled and how many are blank, and
/// the numbers among the filled ones.
pub struct ColumnFacts {
    pub name: String,
    pub count: u64,
    pub blanks: u64,
    pub numbers: Vec<u64>,
}

#[verifier::ext_equal]
pub struct FactsView {
    pub name: Seq<char>,
    pub count: nat,
    pub blanks: nat,
    pub numbers: Seq<u64>,
}

impl DeepView for ColumnFacts {
    type V = FactsView;

    open spec fn deep_view(&self) -> FactsView {
        FactsView {
            name: self.name@,
            count: self.count as nat,
            blanks: self.blanks as nat,
            numbers: self.numbers@,
        }
    }
}

/// How many cells of column `c` are blank in the rows from `start` up to `n`.
pub open spec fn blank_count(rows: RowsView, start: int, c: int, n: int) -> nat
    decreases n - start,
{
    if n <= start || n > rows.len() {
        0
    } else {
        blank_count(rows, start, c, n - 1) + if is_blank(cell_at(rows[n - 1], c)) {
            1nat
        } else {
            0
        }
    }
}

/// The numbers in the filled cells of column `c` in the rows from `start` up to `n`.
pub open spec fn filled_numbers(
    rows: RowsView,
    nums: Seq<Seq<Option<u64>>>,
    start: int,
    c: int,
    n: int,
) -> Seq<u64>
    decreases n - start,
{
    if n <= start || n > rows.len() {
        Seq::empty()
    } else {
        let before = filled_numbers(rows, nums, start, c, n - 1);
        match num_at(nums, n - 1, c) {
            Some(x) => if is_blank(cell_at(rows[n - 1], c)) {
                before
            } else {
                before.push(x)
            },
            None => before,
        }
    }
}

/// What column `c` holds.
pub open spec fn facts_of(
    rows: RowsView,
    nums: Seq<Seq<Option<u64>>>,
    header: bool,
    c: int,
) -> FactsView {
    let start = data_start(header, rows);
    let end = rows.len() as int;
    FactsView {
        name: column_title(header, rows, c),
        count: (end - start - blank_count(rows, start, c, end)) as nat,
        blanks: blank_count(rows, start, c, end),
        numbers: filled_numbers(rows, nums, start, c, end),
    }
}

fn read_facts(rows: &Rows, nums: &Nums, header: bool, c: usize) -> (r: ColumnFacts)
    requires
        c < usize::MAX,
    ensures
        r.deep_view() == facts_of(rows.deep_view(), nums_view(nums@), header, c as int),
{
    let start = first_data_row(header, rows);
    let ghost rv = rows.deep_view();
    let ghost nv = nums_view(nums@);
    let mut count: u64 = 0;
    let mut blanks: u64 = 0;
    let mut numbers: Vec<u64> = Vec::new();
    let mut i: usize = start;
    let total: usize = rows.len();
    assert(rv.len() == total);
    while i < total
        invariant
            start <= i <= total,
            total == rows@.len(),
            rv == rows.deep_view(),
            rv.len() == total,
            nv == nums_view(nums@),
            blanks == blank_count(rv, start as int, c as int, i as int),
            count + blanks == i - start,
            numbers@ == filled_numbers(rv, nv, start as int, c as int, i as int),
        decreases total - i,
    {
        assert(rv[i as int] == rows@[i as int].deep_view());
        if sheet_cell_blank(&copy_cell(&rows[i], c)) {
            blanks = blanks + 1;
        } else {
            count = count + 1;
            match number_of(nums, i, c) {
                Some(x) => {
                    numbers.push(x);
                },
                None => {},
            }
        }
        i = i + 1;
    }
    ColumnFacts { name: title_of_column(header, rows, c), count, blanks, numbers }
}

/// What each column of a sheet holds.
pub fn op_sheet_stats(rows: &Rows, nums: &Nums, header: bool) -> (r: Vec<ColumnFacts>)
    ensures
        r.deep_view() == Seq::new(
            widest(rows.deep_view(), rows.deep_view().len()),
            |c: int| facts_of(rows.deep_view(), nums_view(nums@), header, c),
        ),
{
    let ghost rv = rows.deep_view();
    assert(rv.len() == rows@.len());
    let n: usize = count_columns(rows);
    let make = |c: usize| -> (f: ColumnFacts)
        requires
            c < usize::MAX,
        ensures
            f.deep_view() == facts_of(rows.deep_view(), nums_view(nums@), header, c as int),
        { read_facts(rows, nums, header, c) };
    let ghost g = |c: int| facts_of(rv, nums_view(nums@), header, c);
    tabulate(n, &make, Ghost(g))
}

/// What was computed of the numbers of a column.
pub struct Computed {
    pub sum: Value,
    pub min: Value,
    pub max: Value,
    pub mean: Value,
}

/// The description of a column; what was computed is there only where it has numbers.
pub open spec fn facts_object(f: FactsView, k: Computed) -> Json {
    let counts = seq![
        ("name"@, Json::Text(f.name)),
        ("count"@, unsigned(f.count as u64)),
        ("numeric"@, unsigned(f.numbers.len() as u64)),
        ("blanks"@, unsigned(f.blanks as u64)),
    ];
    Json::Object(
        if f.numbers.len() > 0 {
            counts + seq![
                ("sum"@, k.sum.deep_view()),
                ("min"@, k.min.deep_view()),
                ("max"@, k.max.deep_view()),
                ("mean"@, k.mean.deep_view()),
            ]
        } else {
            counts
        },
    )
}

/// The description of a column.
pub fn describe_column(f: &ColumnFacts, k: Computed) -> (r: Value)
    ensures
        r.deep_view() == facts_object(f.deep_view(), k),
{
    let ghost want = facts_object(f.deep_view(), k)->Object_0;
    let mut o: Vec<(String, Value)> = Vec::new();
    add_member(&mut o, "name", text_value(f.name.as_str()));
    add_member(&mut o, "count", Value::Number(crate::value::Number::Unsigned(f.count)));
    add_member(&mut o, "numeric", count_value(f.numbers.len()));
    add_member(&mut o, "blanks", Value::Number(crate::value::Number::Unsigned(f.blanks)));
    if f.numbers.len() > 0 {
        add_member(&mut o, "sum", k.sum);
        add_member(&mut o, "min", k.min);
        add_member(&mut o, "max", k.max);
        add_member(&mut o, "mean", k.mean);
    }
    assert(o.deep_view() =~= want);
    object(o)
}

// ── numbers in order ────────────────────────────────────────────────────────

/// Numbers from the smallest up.
pub fn sort_numbers_up(xs: &Vec<u64>) -> (r: Vec<u64>)
    ensures
        is_sorted_copy(xs@, r@, num_key_order(xs@, false)),
{
    let n: usize = xs.len();
    let ghost lt = num_key_order(xs@, false);
    let smaller = |x: usize, y: usize| -> (b: bool)
        requires
            x < xs@.len(),
            y < xs@.len(),
        ensures
            b == less(xs@[x as int], xs@[y as int]),
        { bits_less(xs[x], xs[y]) };
    let order = stable_order(n, &smaller, Ghost(lt));
    let mut out: Vec<u64> = Vec::new();
    let mut i: usize = 0;
    let ghost all = Seq::new(n as nat, |i: int| xs@[order@[i] as int]);
    while i < n
        invariant
            i <= n,
            n == xs@.len(),
            crate::sorting::is_all_of(order@, 0, n as int),
            all == Seq::new(n as nat, |i: int| xs@[order@[i] as int]),
            out@ == all.take(i as int),
        decreases n - i,
    {
        assert(0 <= order@[i as int] < n);
        out.push(xs[order[i]]);
        i = i + 1;
        assert(out@ =~= all.take(i as int));
    }
    proof {
        assert(out@ =~= all);
        assert(is_arrangement(xs@, out@, order@));
        if is_weak_order(lt, n as int) {
            assert(out@ =~= in_order(xs@, lt));
        }
    }
    out
}

/// The columns below `n` that have numbers, each with its name and its numbers.
pub open spec fn number_columns(
    rows: RowsView,
    nums: Seq<Seq<Option<u64>>>,
    header: bool,
    n: nat,
) -> Seq<(Seq<char>, Seq<Option<u64>>)>
    decreases n,
{
    if n == 0 {
        Seq::empty()
    } else {
        let before = number_columns(rows, nums, header, (n - 1) as nat);
        let vals = readings(
            nums,
            data_start(header, rows),
            rows.len() as int,
            Some((n - 1) as usize),
        );
        if numbers_in(vals, vals.len()).len() > 0 {
            before.push((column_title(header, rows, n - 1), vals))
        } else {
            before
        }
    }
}

pub open spec fn columns_view(cs: Seq<(String, Vec<Option<u64>>)>) -> Seq<
    (Seq<char>, Seq<Option<u64>>),
> {
    Seq::new(cs.len(), |i: int| (cs[i].0@, cs[i].1@))
}

/// The columns that have numbers, with the reading of each data row. Sorted, these are
/// what a summary is computed of; paired, a correlation.
pub fn op_sheet_describe(rows: &Rows, nums: &Nums, header: bool) -> (r: Vec<
    (String, Vec<Option<u64>>),
>)
    ensures
        columns_view(r@) == number_columns(
            rows.deep_view(),
            nums_view(nums@),
            header,
            widest(rows.deep_view(), rows.deep_view().len()),
        ),
{
    let start = first_data_row(header, rows);
    let ghost rv = rows.deep_view();
    let ghost nv = nums_view(nums@);
    assert(rv.len() == rows@.len());
    let n: usize = count_columns(rows);
    let mut out: Vec<(String, Vec<Option<u64>>)> = Vec::new();
    let mut c: usize = 0;
    assert(columns_view(out@) =~= Seq::<(Seq<char>, Seq<Option<u64>>)>::empty());
    while c < n
        invariant
            c <= n,
            rv == rows.deep_view(),
            rv.len() == rows@.len(),
            nv == nums_view(nums@),
            start == data_start(header, rv),
            start <= rows@.len(),
            columns_view(out@) == number_columns(rv, nv, header, c as nat),
        decreases n - c,
    {
        let vals = column_readings(nums, start, rows.len(), Some(c));
        let some = crate::columns::column_numbers(&vals).len() > 0;
        if some {
            let name = title_of_column(header, rows, c);
            let ghost was = out@;
            out.push((name, vals));
            assert(columns_view(out@) =~= columns_view(was).push((name@, vals@)));
        }
        c = c + 1;
    }
    out
}

/// The pairs of numbers that two columns have in the same rows, among the first `n`.
pub open spec fn pairs_of(a: Seq<Option<u64>>, b: Seq<Option<u64>>, n: nat) -> Seq<(u64, u64)>
    decreases n,
{
    if n == 0 || n > a.len() || n > b.len() {
        Seq::empty()
    } else {
        let before = pairs_of(a, b, (n - 1) as nat);
        if a[n - 1] is Some && b[n - 1] is Some {
            before.push((a[n - 1]->0, b[n - 1]->0))
        } else {
            before
        }
    }
}

/// The pairs of numbers of two columns, over which their correlation is computed.
pub fn op_sheet_corr(a: &Vec<Option<u64>>, b: &Vec<Option<u64>>) -> (r: Vec<(u64, u64)>)
    ensures
        r@ == pairs_of(
            a@,
            b@,
            if a@.len() < b@.len() {
                a@.len()
            } else {
                b@.len()
            },
        ),
{
    let mut out: Vec<(u64, u64)> = Vec::new();
    let mut i: usize = 0;
    while i < a.len() && i < b.len()
        invariant
            i <= a@.len(),
            i <= b@.len(),
            out@ == pairs_of(a@, b@, i as nat),
        decreases a@.len() - i,
    {
        match (a[i], b[i]) {
            (Some(x), Some(y)) => {
                out.push((x, y));
            },
            _ => {},
        }
        i = i + 1;
    }
    out
}

// ── columns of results ──────────────────────────────────────────────────────

/// The results of data rows: what was computed where the cell is a number, else an
/// empty text; all are empty where nothing can be computed.
pub open spec fn results_of(vals: Seq<Option<u64>>, computed: Seq<Json>, defined: bool) -> Seq<
    Json,
> {
    Seq::new(
        vals.len(),
        |i: int|
            if defined && vals[i] is Some {
                result_at(computed, i)
            } else {
                Json::Text(Seq::empty())
            },
    )
}

fn make_results(vals: &Vec<Option<u64>>, computed: &Vec<Value>, defined: bool) -> (r: Vec<Value>)
    ensures
        r.deep_view() == results_of(vals@, computed.deep_view(), defined),
{
    let ghost cv = computed.deep_view();
    let make = |i: usize| -> (v: Value)
        requires
            i < vals@.len(),
        ensures
            v.deep_view() == (if defined && vals@[i as int] is Some {
                result_at(computed.deep_view(), i as int)
            } else {
                Json::Text(Seq::empty())
            }),
        {
            if defined && vals[i].is_some() {
                copy_cell(computed, i)
            } else {
                Value::Text(String::new())
            }
        };
    let ghost g = |i: int|
        if defined && vals@[i] is Some {
            result_at(cv, i)
        } else {
            Json::Text(Seq::empty())
        };
    let out = tabulate(vals.len(), &make, Ghost(g));
    assert(out.deep_view() =~= results_of(vals@, cv, defined));
    out
}

/// The method of scaling: `minmax` unless options name another; only `zscore` is known
/// beside it.
pub open spec fn wanted_method(opts: Json) -> Result<Seq<char>, Seq<char>> {
    let m = match as_text(field(opts, "method"@)) {
        Some(t) => t,
        None => "minmax"@,
    };
    if m == "minmax"@ || m == "zscore"@ {
        Ok(m)
    } else {
        Err("unknown method: "@ + m + " (minmax|zscore)"@)
    }
}

pub fn read_method(opts: &Value) -> (r: Result<String, String>)
    ensures
        crate::groups::res_text(r) == wanted_method(opts.deep_view()),
{
    let m = match opts.text_at("method") {
        Some(t) => copy_text(t),
        None => copy_text("minmax"),
    };
    if same(m.as_str(), "minmax") || same(m.as_str(), "zscore") {
        Ok(m)
    } else {
        Err(concat3("unknown method: ", m.as_str(), " (minmax|zscore)"))
    }
}

/// A sheet with a column of scaled numbers, and the new column's header. Cells that are
/// no numbers get an empty text.
pub fn op_sheet_normalize(
    opts: &Value,
    rows: &Rows,
    header: bool,
    c: usize,
    vals: &Vec<Option<u64>>,
    scaled: &Vec<Value>,
) -> (r: (Rows, String))
    ensures
        ({
            let rv = rows.deep_view();
            let label = result_label(opts.deep_view(), header, rv, c as int, "_norm"@);
            &&& r.1@ == label
            &&& r.0.deep_view() == with_results(
                rv,
                data_start(header, rv),
                label,
                results_of(vals@, scaled.deep_view(), true),
            )
        }),
{
    let start = first_data_row(header, rows);
    let label = label_of_results(opts, header, rows, c, "_norm");
    let results = make_results(vals, scaled, true);
    (append_column(rows, start, label.as_str(), &results), label)
}

/// A sheet with a column of percentages of a total, and the new column's header. Cells
/// that are no numbers get an empty text, and all do where the total is zero.
pub fn op_sheet_pct(
    opts: &Value,
    rows: &Rows,
    header: bool,
    c: usize,
    vals: &Vec<Option<u64>>,
    total: u64,
    shares: &Vec<Value>,
) -> (r: (Rows, String))
    ensures
        ({
            let rv = rows.deep_view();
            let label = result_label(opts.deep_view(), header, rv, c as int, "_pct"@);
            &&& r.1@ == label
            &&& r.0.deep_view() == with_results(
                rv,
                data_start(header, rv),
                label,
                results_of(vals@, shares.deep_view(), !crate::reals::equal(total, 0)),
            )
        }),
{
    let start = first_data_row(header, rows);
    let label = label_of_results(opts, header, rows, c, "_pct");
    let results = make_results(vals, shares, !crate::reals::bits_equal(total, 0));
    (append_column(rows, start, label.as_str(), &results), label)
}

/// A sheet with a column of running totals, and the new column's header.
pub fn op_sheet_cumsum(opts: &Value, rows: &Rows, header: bool, c: usize, sums: &Vec<Value>) -> (r: (
    Rows,
    String,
))
    ensures
        ({
            let rv = rows.deep_view();
            let label = result_label(opts.deep_view(), header, rv, c as int, "_cumsum"@);
            &&& r.1@ == label
            &&& r.0.deep_view() == with_results(
                rv,
                data_start(header, rv),
                label,
                sums.deep_view(),
            )
        }),
{
    let start = first_data_row(header, rows);
    let label = label_of_results(opts, header, rows, c, "_cumsum");
    (append_column(rows, start, label.as_str(), sums), label)
}

// ── what is told of columns ─────────────────────────────────────────────────

/// Rows that stand one after the other.
pub open spec fn rows_from(start: int, n: int) -> Seq<int> {
    Seq::new(
        (if start <= n {
            n - start
        } else {
            0
        }) as nat,
        |i: int| start + i,
    )
}

proof fn lemma_blank_is_empty(rows: RowsView, r: int, c: int)
    requires
        0 <= r < rows.len(),
    ensures
        is_blank(cell_at(rows[r], c)) == is_empty_in(rows, r, c),
{
    if 0 <= c < rows[r].len() {
        if let Json::Text(t) = rows[r][c] {
            lemma_trimmed_away(t);
        }
    }
}

proof fn lemma_facts(rows: RowsView, nums: Seq<Seq<Option<u64>>>, start: int, c: int, n: int)
    requires
        0 <= start <= n <= rows.len(),
    ensures
        blank_count(rows, start, c, n) == rows_from(start, n).filter(
            |r: int| is_empty_in(rows, r, c),
        ).len(),
        filled_numbers(rows, nums, start, c, n) == rows_from(start, n).filter(
            |r: int| !is_empty_in(rows, r, c) && number_at(nums, r, c) is Some,
        ).map_values(|r: int| number_at(nums, r, c)->0),
    decreases n,
{
    reveal(Seq::filter);
    let all = rows_from(start, n);
    let is = |r: int| !is_empty_in(rows, r, c) && number_at(nums, r, c) is Some;
    let get = |r: int| number_at(nums, r, c)->0;
    if n > start {
        lemma_facts(rows, nums, start, c, n - 1);
        lemma_blank_is_empty(rows, n - 1, c);
        assert(all.drop_last() =~= rows_from(start, n - 1));
        assert(all.last() == n - 1);
        if is(n - 1) {
            assert(all.filter(is).map_values(get) =~= all.drop_last().filter(is).map_values(
                get,
            ).push(get(n - 1)));
        }
    } else {
        assert(all.filter(is).map_values(get) =~= Seq::<u64>::empty());
    }
}

/// Of a column it is told how many cells below the header are empty, how many are not, and
/// which numbers stand in those that are not, from the top.
pub proof fn facts_are_of_the_column(
    rows: RowsView,
    nums: Seq<Seq<Option<u64>>>,
    header: bool,
    c: int,
)
    ensures
        ({
            let f = facts_of(rows, nums, header, c);
            let all = rows_from(below_header(header, rows), rows.len() as int);
            &&& f.blanks == all.filter(|r: int| is_empty_in(rows, r, c)).len()
            &&& f.count + f.blanks == all.len()
            &&& f.numbers == all.filter(
                |r: int| !is_empty_in(rows, r, c) && number_at(nums, r, c) is Some,
            ).map_values(|r: int| number_at(nums, r, c)->0)
        }),
{
    let start = below_header(header, rows);
    lemma_facts(rows, nums, start, c, rows.len() as int);
    let all = rows_from(start, rows.len() as int);
    lemma_filter_is_shorter(all, |r: int| is_empty_in(rows, r, c));
}

proof fn lemma_filter_is_shorter(s: Seq<int>, p: spec_fn(int) -> bool)
    ensures
        s.filter(p).len() <= s.len(),
    decreases s.len(),
{
    reveal(Seq::filter);
    if s.len() > 0 {
        lemma_filter_is_shorter(s.drop_last(), p);
    }
}

/// The sum, the least, the greatest and the mean are told just where a column has numbers.
pub proof fn facts_are_told_as_they_are(f: FactsView, k: Computed)
    ensures
        ({
            let o = facts_object(f, k)->Object_0;
            &&& o.len() == if f.numbers.len() == 0 {
                4nat
            } else {
                8
            }
            &&& o[0] == ("name"@, Json::Text(f.name))
            &&& o[1] == ("count"@, Json::Number(crate::value::Num::Unsigned(f.count as u64)))
            &&& o[2] == (
                "numeric"@,
                Json::Number(crate::value::Num::Unsigned(f.numbers.len() as u64)),
            )
            &&& o[3] == ("blanks"@, Json::Number(crate::value::Num::Unsigned(f.blanks as u64)))
            &&& f.numbers.len() > 0 ==> o[4] == ("sum"@, k.sum.deep_view()) && o[5] == (
                "min"@,
                k.min.deep_view(),
            ) && o[6] == ("max"@, k.max.deep_view()) && o[7] == ("mean"@, k.mean.deep_view())
        }),
{
}

/// Two columns have a pair for each row in which both have a number, in the order of the rows.
pub proof fn pairs_are_of_rows_with_both(a: Seq<Option<u64>>, b: Seq<Option<u64>>, n: nat)
    requires
        n <= a.len(),
        n <= b.len(),
    ensures
        pairs_of(a, b, n) == rows_from(0, n as int).filter(
            |r: int| a[r] is Some && b[r] is Some,
        ).map_values(|r: int| (a[r]->0, b[r]->0)),
    decreases n,
{
    reveal(Seq::filter);
    let all = rows_from(0, n as int);
    let is = |r: int| a[r] is Some && b[r] is Some;
    let get = |r: int| (a[r]->0, b[r]->0);
    if n > 0 {
        pairs_are_of_rows_with_both(a, b, (n - 1) as nat);
        assert(all.drop_last() =~= rows_from(0, n - 1));
        assert(all.last() == n - 1);
        if is(n - 1) {
            assert(all.filter(is).map_values(get) =~= all.drop_last().filter(is).map_values(
                get,
            ).push(get(n - 1)));
        }
    } else {
        assert(all.filter(is).map_values(get) =~= Seq::<(u64, u64)>::empty());
    }
}

/// A result stands beside each number and nothing beside what is no number; nothing stands
/// anywhere where nothing can be computed.
pub proof fn results_stand_beside_numbers(
    vals: Seq<Option<u64>>,
    computed: Seq<Json>,
    defined: bool,
    i: int,
)
    requires
        0 <= i < vals.len(),
        computed.len() == vals.len(),
    ensures
        results_of(vals, computed, defined).len() == vals.len(),
        vals[i] is Some && defined ==> results_of(vals, computed, defined)[i] == computed[i],
        vals[i] is None || !defined ==> results_of(vals, computed, defined)[i] == Json::Text(
            Seq::empty(),
        ),
{
}

} // verus!
