//! What the figures of a chart are made of: the numbers that set its scale, ranks,
//! quartiles, counts per bin and per cell, and the nodes that flows run between.

use crate::chart::{
    bubbles_of, numbers_at, numbers_of, number_items, opt_num, read_numbers, series_nums,
    series_ohlc, series_pairs, series_points3, tuples_of, Bubble, Drawing,
};
use crate::deep::{append_deep, push_deep};
use crate::reals::{bits_less, is_nan, less};
use crate::sorting::{is_all_of, is_stable_sort, is_weak_order, stable_order};
use crate::stats::sort_numbers_up;
use crate::value::{as_array, as_text, as_u64, field, lemma_array_view, Json, Num, Number, Value};
use vstd::prelude::*;

verus! {

// ── scale ───────────────────────────────────────────────────────────────────

/// Where the scale of a drawing comes from.
pub enum Scale {
    /// The least of the lows and the greatest of the highs; zero counts among the lows
    /// where `from_zero` holds.
    Listed { lows: Vec<Number>, highs: Vec<Number>, across: Vec<Number>, from_zero: bool },
    /// The running total of the numbers, and zero.
    Running(Vec<Number>),
    /// The totals of the stacks; half of the greatest to either side where `centered`
    /// holds.
    Stacked { stacks: Vec<Vec<Option<Number>>>, centered: bool },
    /// From 0 to 100.
    Percent,
}

pub enum ScaleView {
    Listed { lows: Seq<Num>, highs: Seq<Num>, across: Seq<Num>, from_zero: bool },
    Running(Seq<Num>),
    Stacked { stacks: Seq<Seq<Option<Num>>>, centered: bool },
    Percent,
}

impl DeepView for Scale {
    type V = ScaleView;

    open spec fn deep_view(&self) -> ScaleView {
        match *self {
            Scale::Listed { lows, highs, across, from_zero } => ScaleView::Listed {
                lows: lows.deep_view(),
                highs: highs.deep_view(),
                across: across.deep_view(),
                from_zero,
            },
            Scale::Running(ns) => ScaleView::Running(ns.deep_view()),
            Scale::Stacked { stacks, centered } => ScaleView::Stacked {
                stacks: stacks_view(stacks@),
                centered,
            },
            Scale::Percent => ScaleView::Percent,
        }
    }
}

pub open spec fn stack_view(s: Seq<Option<Number>>) -> Seq<Option<Num>> {
    Seq::new(s.len(), |i: int| opt_num(s[i]))
}

pub open spec fn stacks_view(s: Seq<Vec<Option<Number>>>) -> Seq<Seq<Option<Num>>> {
    Seq::new(s.len(), |i: int| stack_view(s[i]@))
}

/// The numbers of the first `n` series, one series after the other.
pub open spec fn all_numbers(series: Seq<Json>, n: nat) -> Seq<Num>
    decreases n,
{
    if n == 0 || n > series.len() {
        Seq::empty()
    } else {
        all_numbers(series, (n - 1) as nat) + numbers_at(series[n - 1], "data"@)
    }
}

/// Item `k` of each tuple.
pub open spec fn item_of(ts: Seq<Seq<Num>>, k: int) -> Seq<Num> {
    Seq::new(ts.len(), |i: int| ts[i][k])
}

/// Item `k` of the tuples of `size` numbers that the first `n` series hold.
pub open spec fn all_items(series: Seq<Json>, size: nat, k: int, n: nat) -> Seq<Num>
    decreases n,
{
    if n == 0 || n > series.len() {
        Seq::empty()
    } else {
        all_items(series, size, k, (n - 1) as nat) + item_of(tuples_of(series[n - 1], size), k)
    }
}

/// Coordinate `k` of each point.
pub open spec fn coordinate_of(bs: Seq<(Seq<Num>, Option<Num>)>, k: int) -> Seq<Num> {
    Seq::new(bs.len(), |i: int| bs[i].0[k])
}

/// Coordinate `k` of the points of the first `n` series.
pub open spec fn all_coordinates(series: Seq<Json>, k: int, n: nat) -> Seq<Num>
    decreases n,
{
    if n == 0 || n > series.len() {
        Seq::empty()
    } else {
        all_coordinates(series, k, (n - 1) as nat) + coordinate_of(bubbles_of(series[n - 1]), k)
    }
}

/// How many numbers the longest of the first `n` series has.
pub open spec fn longest(series: Seq<Json>, n: nat) -> nat
    decreases n,
{
    if n == 0 || n > series.len() {
        0
    } else {
        let before = longest(series, (n - 1) as nat);
        let here = numbers_at(series[n - 1], "data"@).len();
        if here > before {
            here
        } else {
            before
        }
    }
}

/// The number of a series for category `c`.
pub open spec fn number_for(s: Json, c: int) -> Option<Num> {
    let ns = numbers_at(s, "data"@);
    if 0 <= c < ns.len() {
        Some(ns[c])
    } else {
        None
    }
}

/// The numbers of all series for category `c`.
pub open spec fn stack_for(series: Seq<Json>, c: int) -> Seq<Option<Num>> {
    Seq::new(series.len(), |i: int| number_for(series[i], c))
}

/// The stacks of all categories.
pub open spec fn stacks_of(series: Seq<Json>) -> Seq<Seq<Option<Num>>> {
    Seq::new(longest(series, series.len()), |c: int| stack_for(series, c))
}

/// The numbers of the first series.
pub open spec fn first_numbers(series: Seq<Json>) -> Seq<Num> {
    if series.len() > 0 {
        numbers_at(series[0], "data"@)
    } else {
        Seq::empty()
    }
}

/// Where the scale of a drawing of these series comes from.
pub open spec fn scale_of(d: Drawing, series: Seq<Json>) -> ScaleView {
    let n = series.len();
    match d {
        Drawing::Scatter | Drawing::Bubble => ScaleView::Listed {
            lows: all_coordinates(series, 1, n),
            highs: all_coordinates(series, 1, n),
            across: all_coordinates(series, 0, n),
            from_zero: false,
        },
        Drawing::Prices { .. } => ScaleView::Listed {
            lows: all_items(series, 4, 2, n),
            highs: all_items(series, 4, 1, n),
            across: Seq::empty(),
            from_zero: false,
        },
        Drawing::Range => ScaleView::Listed {
            lows: all_items(series, 2, 0, n),
            highs: all_items(series, 2, 1, n),
            across: Seq::empty(),
            from_zero: false,
        },
        Drawing::Waterfall => ScaleView::Running(first_numbers(series)),
        Drawing::StackedArea => ScaleView::Stacked { stacks: stacks_of(series), centered: false },
        Drawing::Streamgraph => ScaleView::Stacked { stacks: stacks_of(series), centered: true },
        Drawing::PercentStacked => ScaleView::Percent,
        _ => ScaleView::Listed {
            lows: all_numbers(series, n),
            highs: all_numbers(series, n),
            across: Seq::empty(),
            from_zero: true,
        },
    }
}

fn collect_numbers(series: &Vec<Value>) -> (r: Vec<Number>)
    ensures
        r.deep_view() == all_numbers(series.deep_view(), series@.len()),
{
    let ghost sv = series.deep_view();
    let total: usize = series.len();
    assert(sv.len() == total);
    let mut out: Vec<Number> = Vec::new();
    assert(out.deep_view() =~= Seq::<Num>::empty());
    let mut i: usize = 0;
    while i < total
        invariant
            i <= total,
            total == series@.len(),
            sv == series.deep_view(),
            sv.len() == total,
            out.deep_view() == all_numbers(sv, i as nat),
        decreases total - i,
    {
        assert(sv[i as int] == series@[i as int].deep_view());
        append_deep(&mut out, series_nums(&series[i]));
        i = i + 1;
    }
    out
}

proof fn lemma_tuple_sizes(s: Json, size: nat)
    ensures
        forall|i: int| 0 <= i < tuples_of(s, size).len() ==> (#[trigger] tuples_of(s, size)[i]).len()
            == size,
{
    if let Some(a) = as_array(field(s, "data"@)) {
        lemma_item_sizes(a, size, a.len());
    }
}

proof fn lemma_item_sizes(a: Seq<Json>, size: nat, n: nat)
    ensures
        forall|i: int|
            0 <= i < crate::chart::tuple_items(a, size, n).len() ==> (
            #[trigger] crate::chart::tuple_items(a, size, n)[i]).len() == size,
    decreases n,
{
    if n > 0 && n <= a.len() {
        lemma_item_sizes(a, size, (n - 1) as nat);
        let before = crate::chart::tuple_items(a, size, (n - 1) as nat);
        assert forall|i: int| 0 <= i < crate::chart::tuple_items(a, size, n).len() implies (
        #[trigger] crate::chart::tuple_items(a, size, n)[i]).len() == size by {
            if i < before.len() {
                assert(before[i].len() == size);
            }
        }
    }
}

proof fn lemma_bubble_sizes(a: Seq<Json>, n: nat)
    ensures
        forall|i: int|
            0 <= i < crate::chart::bubble_items(a, n).len() ==> (
            #[trigger] crate::chart::bubble_items(a, n)[i]).0.len() == 2,
    decreases n,
{
    if n > 0 && n <= a.len() {
        lemma_bubble_sizes(a, (n - 1) as nat);
        let before = crate::chart::bubble_items(a, (n - 1) as nat);
        assert forall|i: int| 0 <= i < crate::chart::bubble_items(a, n).len() implies (
        #[trigger] crate::chart::bubble_items(a, n)[i]).0.len() == 2 by {
            if i < before.len() {
                assert(before[i].0.len() == 2);
            }
        }
    }
}

fn pick_items(ts: &Vec<Vec<Number>>, size: usize, k: usize) -> (r: Vec<Number>)
    requires
        k < size,
        forall|i: int| 0 <= i < ts.deep_view().len() ==> (#[trigger] ts.deep_view()[i]).len() == size,
    ensures
        r.deep_view() == item_of(ts.deep_view(), k as int),
{
    let ghost tv = ts.deep_view();
    let ghost all = item_of(tv, k as int);
    let total: usize = ts.len();
    assert(tv.len() == total);
    let mut out: Vec<Number> = Vec::new();
    assert(out.deep_view() =~= all.take(0));
    let mut i: usize = 0;
    while i < total
        invariant
            i <= total,
            total == ts@.len(),
            tv == ts.deep_view(),
            tv.len() == total,
            k < size,
            forall|i: int| 0 <= i < tv.len() ==> (#[trigger] tv[i]).len() == size,
            all == item_of(tv, k as int),
            out.deep_view() == all.take(i as int),
        decreases total - i,
    {
        assert(tv[i as int] == ts@[i as int].deep_view());
        assert(tv[i as int].len() == size);
        assert(ts@[i as int].deep_view().len() == ts@[i as int]@.len());
        let x = ts[i][k].dup();
        assert(x.deep_view() == all[i as int]);
        push_deep(&mut out, x);
        i = i + 1;
        assert(out.deep_view() =~= all.take(i as int));
    }
    assert(all.take(i as int) =~= all);
    out
}

fn collect_prices(series: &Vec<Value>, k: usize) -> (r: Vec<Number>)
    requires
        k < 4,
    ensures
        r.deep_view() == all_items(series.deep_view(), 4, k as int, series@.len()),
{
    let ghost sv = series.deep_view();
    let total: usize = series.len();
    assert(sv.len() == total);
    let mut out: Vec<Number> = Vec::new();
    assert(out.deep_view() =~= Seq::<Num>::empty());
    let mut i: usize = 0;
    while i < total
        invariant
            i <= total,
            total == series@.len(),
            sv == series.deep_view(),
            sv.len() == total,
            k < 4,
            out.deep_view() == all_items(sv, 4, k as int, i as nat),
        decreases total - i,
    {
        assert(sv[i as int] == series@[i as int].deep_view());
        proof {
            lemma_tuple_sizes(sv[i as int], 4);
        }
        let ts = series_ohlc(&series[i]);
        append_deep(&mut out, pick_items(&ts, 4, k));
        i = i + 1;
    }
    out
}

fn collect_ends(series: &Vec<Value>, k: usize) -> (r: Vec<Number>)
    requires
        k < 2,
    ensures
        r.deep_view() == all_items(series.deep_view(), 2, k as int, series@.len()),
{
    let ghost sv = series.deep_view();
    let total: usize = series.len();
    assert(sv.len() == total);
    let mut out: Vec<Number> = Vec::new();
    assert(out.deep_view() =~= Seq::<Num>::empty());
    let mut i: usize = 0;
    while i < total
        invariant
            i <= total,
            total == series@.len(),
            sv == series.deep_view(),
            sv.len() == total,
            k < 2,
            out.deep_view() == all_items(sv, 2, k as int, i as nat),
        decreases total - i,
    {
        assert(sv[i as int] == series@[i as int].deep_view());
        proof {
            lemma_tuple_sizes(sv[i as int], 2);
        }
        let ts = series_pairs(&series[i]);
        append_deep(&mut out, pick_items(&ts, 2, k));
        i = i + 1;
    }
    out
}

fn collect_coordinates(series: &Vec<Value>, k: usize) -> (r: Vec<Number>)
    requires
        k < 2,
    ensures
        r.deep_view() == all_coordinates(series.deep_view(), k as int, series@.len()),
{
    let ghost sv = series.deep_view();
    let total: usize = series.len();
    assert(sv.len() == total);
    let mut out: Vec<Number> = Vec::new();
    assert(out.deep_view() =~= Seq::<Num>::empty());
    let mut i: usize = 0;
    while i < total
        invariant
            i <= total,
            total == series@.len(),
            sv == series.deep_view(),
            sv.len() == total,
            k < 2,
            out.deep_view() == all_coordinates(sv, k as int, i as nat),
        decreases total - i,
    {
        assert(sv[i as int] == series@[i as int].deep_view());
        let bs: Vec<Bubble> = series_points3(&series[i]);
        let ghost bv = bs.deep_view();
        let ghost all = coordinate_of(bv, k as int);
        proof {
            if let Some(a) = as_array(field(sv[i as int], "data"@)) {
                lemma_bubble_sizes(a, a.len());
            }
        }
        assert(bv.len() == bs@.len());
        let mut here: Vec<Number> = Vec::new();
        assert(here.deep_view() =~= all.take(0));
        let mut j: usize = 0;
        while j < bs.len()
            invariant
                j <= bs@.len(),
                k < 2,
                bv == bs.deep_view(),
                bv.len() == bs@.len(),
                forall|i: int| 0 <= i < bv.len() ==> (#[trigger] bv[i]).0.len() == 2,
                all == coordinate_of(bv, k as int),
                here.deep_view() == all.take(j as int),
            decreases bs@.len() - j,
        {
            assert(bv[j as int] == bs@[j as int].deep_view());
            assert(bv[j as int].0.len() == 2);
            assert(bs@[j as int].point.deep_view().len() == bs@[j as int].point@.len());
            let x = bs[j].point[k].dup();
            assert(x.deep_view() == all[j as int]);
            push_deep(&mut here, x);
            j = j + 1;
            assert(here.deep_view() =~= all.take(j as int));
        }
        assert(all.take(j as int) =~= all);
        append_deep(&mut out, here);
        i = i + 1;
    }
    out
}

/// How many numbers the longest series has.
pub fn longest_series(series: &Vec<Value>) -> (n: usize)
    ensures
        n == longest(series.deep_view(), series@.len()),
{
    let ghost sv = series.deep_view();
    let total: usize = series.len();
    assert(sv.len() == total);
    let mut n: usize = 0;
    let mut i: usize = 0;
    while i < total
        invariant
            i <= total,
            total == series@.len(),
            sv == series.deep_view(),
            sv.len() == total,
            n == longest(sv, i as nat),
        decreases total - i,
    {
        assert(sv[i as int] == series@[i as int].deep_view());
        let ns = series_nums(&series[i]);
        assert(ns.deep_view().len() == ns@.len());
        if ns.len() > n {
            n = ns.len();
        }
        i = i + 1;
    }
    n
}

fn read_stack(series: &Vec<Value>, c: usize) -> (r: Vec<Option<Number>>)
    ensures
        stack_view(r@) == stack_for(series.deep_view(), c as int),
{
    let ghost sv = series.deep_view();
    let ghost all = stack_for(sv, c as int);
    let total: usize = series.len();
    assert(sv.len() == total);
    let mut out: Vec<Option<Number>> = Vec::new();
    assert(stack_view(out@) =~= all.take(0));
    let mut i: usize = 0;
    while i < total
        invariant
            i <= total,
            total == series@.len(),
            sv == series.deep_view(),
            sv.len() == total,
            all == stack_for(sv, c as int),
            stack_view(out@) == all.take(i as int),
        decreases total - i,
    {
        assert(sv[i as int] == series@[i as int].deep_view());
        let ns = series_nums(&series[i]);
        assert(ns.deep_view().len() == ns@.len());
        let ghost was = out@;
        let x: Option<Number> = if c < ns.len() {
            assert(ns.deep_view()[c as int] == ns@[c as int].deep_view());
            Some(ns[c].dup())
        } else {
            None
        };
        assert(opt_num(x) == all[i as int]);
        out.push(x);
        assert(stack_view(out@) =~= stack_view(was).push(all[i as int]));
        i = i + 1;
        assert(stack_view(out@) =~= all.take(i as int));
    }
    assert(all.take(i as int) =~= all);
    out
}

/// The numbers of all series, category by category.
pub fn read_stacks(series: &Vec<Value>) -> (r: Vec<Vec<Option<Number>>>)
    ensures
        stacks_view(r@) == stacks_of(series.deep_view()),
{
    let ghost sv = series.deep_view();
    assert(sv.len() == series@.len());
    let ghost all = stacks_of(sv);
    let total: usize = longest_series(series);
    let mut out: Vec<Vec<Option<Number>>> = Vec::new();
    assert(stacks_view(out@) =~= all.take(0));
    let mut i: usize = 0;
    while i < total
        invariant
            i <= total,
            sv == series.deep_view(),
            all == stacks_of(sv),
            total == all.len(),
            stacks_view(out@) == all.take(i as int),
        decreases total - i,
    {
        let ghost was = out@;
        let s = read_stack(series, i);
        out.push(s);
        assert(stacks_view(out@) =~= stacks_view(was).push(all[i as int]));
        i = i + 1;
        assert(stacks_view(out@) =~= all.take(i as int));
    }
    assert(all.take(i as int) =~= all);
    out
}

/// Collects the numbers that the scale of a drawing comes from.
pub fn read_scale(d: Drawing, series: &Vec<Value>) -> (r: Scale)
    ensures
        r.deep_view() == scale_of(d, series.deep_view()),
{
    let ghost sv = series.deep_view();
    assert(sv.len() == series@.len());
    let none: Vec<Number> = Vec::new();
    assert(none.deep_view() =~= Seq::<Num>::empty());
    match d {
        Drawing::Scatter | Drawing::Bubble => Scale::Listed {
            lows: collect_coordinates(series, 1),
            highs: collect_coordinates(series, 1),
            across: collect_coordinates(series, 0),
            from_zero: false,
        },
        Drawing::Prices { .. } => Scale::Listed {
            lows: collect_prices(series, 2),
            highs: collect_prices(series, 1),
            across: none,
            from_zero: false,
        },
        Drawing::Range => Scale::Listed {
            lows: collect_ends(series, 0),
            highs: collect_ends(series, 1),
            across: none,
            from_zero: false,
        },
        Drawing::Waterfall => {
            if series.len() > 0 {
                assert(sv[0] == series@[0].deep_view());
                Scale::Running(series_nums(&series[0]))
            } else {
                Scale::Running(none)
            }
        },
        Drawing::StackedArea => Scale::Stacked { stacks: read_stacks(series), centered: false },
        Drawing::Streamgraph => Scale::Stacked { stacks: read_stacks(series), centered: true },
        Drawing::PercentStacked => Scale::Percent,
        _ => Scale::Listed {
            lows: collect_numbers(series),
            highs: collect_numbers(series),
            across: none,
            from_zero: true,
        },
    }
}

// ── rows of numbers ─────────────────────────────────────────────────────────

/// The numbers of a value that is a list.
pub open spec fn numbers_in_list(j: Json) -> Seq<Num> {
    match j {
        Json::Array(a) => number_items(a, a.len()),
        _ => Seq::empty(),
    }
}

/// The rows of numbers that stand under a key, else those of the series.
pub open spec fn number_rows(opts: Json, key: Seq<char>, series: Seq<Json>) -> Seq<Seq<Num>> {
    match as_array(field(opts, key)) {
        Some(a) => Seq::new(a.len(), |i: int| numbers_in_list(a[i])),
        None => Seq::new(series.len(), |i: int| numbers_at(series[i], "data"@)),
    }
}

fn list_numbers(v: &Value) -> (r: Vec<Number>)
    ensures
        r.deep_view() == numbers_in_list(v.deep_view()),
{
    match v {
        Value::Array(a) => {
            proof {
                lemma_array_view(a);
            }
            assert(a.deep_view().len() == a@.len());
            numbers_of(a)
        },
        _ => {
            let none: Vec<Number> = Vec::new();
            assert(none.deep_view() =~= Seq::<Num>::empty());
            none
        },
    }
}

/// The rows of a heat map, or the rings of a sunburst.
pub fn read_number_rows(opts: &Value, key: &str, series: &Vec<Value>) -> (r: Vec<Vec<Number>>)
    ensures
        r.deep_view() == number_rows(opts.deep_view(), key@, series.deep_view()),
{
    let ghost all = number_rows(opts.deep_view(), key@, series.deep_view());
    let mut out: Vec<Vec<Number>> = Vec::new();
    assert(out.deep_view() =~= all.take(0));
    match opts.array_at(key) {
        Some(a) => {
            let total: usize = a.len();
            assert(a.deep_view().len() == total);
            let mut i: usize = 0;
            while i < total
                invariant
                    i <= total,
                    total == a@.len(),
                    a.deep_view().len() == total,
                    all == Seq::new(total as nat, |i: int| numbers_in_list(a.deep_view()[i])),
                    out.deep_view() == all.take(i as int),
                decreases total - i,
            {
                assert(a.deep_view()[i as int] == a@[i as int].deep_view());
                push_deep(&mut out, list_numbers(&a[i]));
                i = i + 1;
                assert(out.deep_view() =~= all.take(i as int));
            }
            assert(all.take(i as int) =~= all);
        },
        None => {
            let total: usize = series.len();
            assert(series.deep_view().len() == total);
            let mut i: usize = 0;
            while i < total
                invariant
                    i <= total,
                    total == series@.len(),
                    series.deep_view().len() == total,
                    all == Seq::new(
                        total as nat,
                        |i: int| numbers_at(series.deep_view()[i], "data"@),
                    ),
                    out.deep_view() == all.take(i as int),
                decreases total - i,
            {
                assert(series.deep_view()[i as int] == series@[i as int].deep_view());
                push_deep(&mut out, series_nums(&series[i]));
                i = i + 1;
                assert(out.deep_view() =~= all.take(i as int));
            }
            assert(all.take(i as int) =~= all);
        },
    }
    out
}

/// The days that a calendar shows: the numbers of its own, else those of the first
/// series.
pub open spec fn calendar_days(opts: Json, series: Seq<Json>) -> Seq<Num> {
    if as_array(field(opts, "values"@)) is Some {
        numbers_at(opts, "values"@)
    } else {
        first_numbers(series)
    }
}

pub fn read_calendar_days(opts: &Value, series: &Vec<Value>) -> (r: Vec<Number>)
    ensures
        r.deep_view() == calendar_days(opts.deep_view(), series.deep_view()),
{
    assert(series.deep_view().len() == series@.len());
    if opts.array_at("values").is_some() {
        read_numbers(opts, "values")
    } else if series.len() > 0 {
        assert(series.deep_view()[0] == series@[0].deep_view());
        series_nums(&series[0])
    } else {
        let none: Vec<Number> = Vec::new();
        assert(none.deep_view() =~= Seq::<Num>::empty());
        none
    }
}

/// The columns of a calendar: as many as are asked for, else one for each week, and one at
/// the least.
pub open spec fn calendar_columns(asked: Option<u64>, days: nat) -> nat {
    let n = match asked {
        Some(c) => c as nat,
        None => (days + 6) / 7,
    };
    if n < 1 {
        1
    } else {
        n
    }
}

/// A number of columns as it is divided by, in 32 bits with a sign.
pub open spec fn signed_columns(columns: nat) -> int {
    let low = (columns % 0x1_0000_0000) as int;
    if low < 0x8000_0000 {
        low
    } else {
        low - 0x1_0000_0000
    }
}

/// A quotient, cut toward zero.
pub open spec fn cut_quotient(a: int, b: int) -> int
    recommends
        b != 0,
{
    let up = if a < 0 {
        -a
    } else {
        a
    };
    let down = if b < 0 {
        -b
    } else {
        b
    };
    if (a < 0) == (b < 0) {
        up / down
    } else {
        -(up / down)
    }
}

/// The side of a day of a calendar: what fits into a column and into a seventh of the
/// height, and three at the least.
pub open spec fn calendar_side(width: int, height: int, columns: nat) -> int {
    let across = cut_quotient(width, signed_columns(columns));
    let down = cut_quotient(height, 7);
    let least = if across < down {
        across
    } else {
        down
    };
    if least < 3 {
        3
    } else {
        least
    }
}

fn divide(a: i64, b: i64) -> (r: i64)
    requires
        b != 0,
        -0x1_0000_0000 < a < 0x1_0000_0000,
        -0x1_0000_0000 < b < 0x1_0000_0000,
    ensures
        r == cut_quotient(a as int, b as int),
        -0x1_0000_0000 < r < 0x1_0000_0000,
{
    let up: u64 = if a < 0 {
        (-a) as u64
    } else {
        a as u64
    };
    let down: u64 = if b < 0 {
        (-b) as u64
    } else {
        b as u64
    };
    let q: u64 = up / down;
    assert(q <= up) by (nonlinear_arith)
        requires
            q == up / down,
            down >= 1,
    ;
    if (a < 0) == (b < 0) {
        q as i64
    } else {
        -(q as i64)
    }
}

pub fn count_calendar_columns(asked: Option<u64>, days: usize) -> (r: u64)
    ensures
        r == calendar_columns(asked, days as nat),
{
    let n: u64 = match asked {
        Some(c) => c,
        None => days as u64 / 7 + if days % 7 > 0 {
            1
        } else {
            0
        },
    };
    if n < 1 {
        1
    } else {
        n
    }
}

/// The days of a calendar in a frame of this width and height, seven in a column: the side of
/// a day, and how far each is from the left and from the top.
pub fn calendar_places(width: i32, height: i32, columns: u64, days: usize) -> (r: (
    i64,
    Vec<(u64, u64)>,
))
    requires
        signed_columns(columns as nat) != 0,
        days <= 0xffff_ffff,
    ensures
        r.0 == calendar_side(width as int, height as int, columns as nat),
        r.1@.len() == days,
        forall|i: int|
            0 <= i < days ==> (#[trigger] r.1@[i]).0 == i / 7 * r.0 && r.1@[i].1 == i % 7 * r.0,
{
    let low: i64 = (columns % 0x1_0000_0000) as i64;
    let c: i64 = if low < 0x8000_0000 {
        low
    } else {
        low - 0x1_0000_0000
    };
    let across = divide(width as i64, c);
    let down = divide(height as i64, 7);
    let least: i64 = if across < down {
        across
    } else {
        down
    };
    let side: i64 = if least < 3 {
        3
    } else {
        least
    };
    let mut out: Vec<(u64, u64)> = Vec::new();
    let mut i: usize = 0;
    while i < days
        invariant
            i <= days <= 0xffff_ffff,
            3 <= side < 0x1_0000_0000,
            out@.len() == i,
            forall|k: int|
                0 <= k < i ==> (#[trigger] out@[k]).0 == k / 7 * side && out@[k].1 == k % 7
                    * side,
        decreases days - i,
    {
        let col: u64 = i as u64 / 7;
        let row: u64 = i as u64 % 7;
        assert(col * side <= 0xffff_ffff * 0xffff_ffff && row * side <= 7 * 0xffff_ffff)
            by (nonlinear_arith)
            requires
                col <= 0xffff_ffff,
                row < 7,
                0 <= side <= 0xffff_ffff,
        ;
        out.push((col * side as u64, row * side as u64));
        i = i + 1;
    }
    (side, out)
}

/// A number under a key.
pub open spec fn number_at(v: Json, key: Seq<char>) -> Option<Num> {
    match field(v, key) {
        Some(Json::Number(x)) => Some(x),
        _ => None,
    }
}

pub fn read_number(v: &Value, key: &str) -> (r: Option<Number>)
    ensures
        opt_num(r) == number_at(v.deep_view(), key@),
{
    match v.get(key) {
        Some(Value::Number(x)) => Some(x.dup()),
        _ => None,
    }
}

/// A task: the place of its series, and when it starts and ends.
pub struct Task {
    pub place: usize,
    pub start: Number,
    pub end: Number,
}

pub struct TaskView {
    pub place: usize,
    pub start: Num,
    pub end: Num,
}

impl DeepView for Task {
    type V = TaskView;

    open spec fn deep_view(&self) -> TaskView {
        TaskView {
            place: self.place,
            start: self.start.deep_view(),
            end: self.end.deep_view(),
        }
    }
}

/// The tasks among the first `n` series: those with a start and an end.
pub open spec fn tasks_of(series: Seq<Json>, n: nat) -> Seq<TaskView>
    decreases n,
{
    if n == 0 || n > series.len() {
        Seq::empty()
    } else {
        let before = tasks_of(series, (n - 1) as nat);
        match (number_at(series[n - 1], "start"@), number_at(series[n - 1], "end"@)) {
            (Some(start), Some(end)) => before.push(
                TaskView { place: (n - 1) as usize, start, end },
            ),
            _ => before,
        }
    }
}

pub fn read_tasks(series: &Vec<Value>) -> (r: Vec<Task>)
    ensures
        r.deep_view() == tasks_of(series.deep_view(), series@.len()),
{
    let ghost sv = series.deep_view();
    let total: usize = series.len();
    assert(sv.len() == total);
    let mut out: Vec<Task> = Vec::new();
    assert(out.deep_view() =~= Seq::<TaskView>::empty());
    let mut i: usize = 0;
    while i < total
        invariant
            i <= total,
            total == series@.len(),
            sv == series.deep_view(),
            sv.len() == total,
            out.deep_view() == tasks_of(sv, i as nat),
        decreases total - i,
    {
        assert(sv[i as int] == series@[i as int].deep_view());
        let start = read_number(&series[i], "start");
        let end = read_number(&series[i], "end");
        if let (Some(start), Some(end)) = (start, end) {
            push_deep(&mut out, Task { place: i, start, end });
        }
        i = i + 1;
    }
    out
}

/// The places, below `n`, of the series of a combined chart that are drawn as lines,
/// or of those that are not.
pub open spec fn combined(series: Seq<Json>, lines: bool, n: nat) -> Seq<usize>
    decreases n,
{
    if n == 0 || n > series.len() {
        Seq::empty()
    } else {
        let before = combined(series, lines, (n - 1) as nat);
        if (as_text(field(series[n - 1], "kind"@)) == Some("line"@)) == lines {
            before.push((n - 1) as usize)
        } else {
            before
        }
    }
}

pub fn read_combined(series: &Vec<Value>, lines: bool) -> (r: Vec<usize>)
    ensures
        r@ == combined(series.deep_view(), lines, series@.len()),
{
    let ghost sv = series.deep_view();
    let total: usize = series.len();
    assert(sv.len() == total);
    let mut out: Vec<usize> = Vec::new();
    let mut i: usize = 0;
    while i < total
        invariant
            i <= total,
            total == series@.len(),
            sv == series.deep_view(),
            sv.len() == total,
            out@ == combined(sv, lines, i as nat),
        decreases total - i,
    {
        assert(sv[i as int] == series@[i as int].deep_view());
        let is_line = match series[i].text_at("kind") {
            Some(k) => crate::text::same(k, "line"),
            None => false,
        };
        if is_line == lines {
            out.push(i);
        }
        i = i + 1;
    }
    out
}

// ── ranks and quartiles ─────────────────────────────────────────────────────

/// Whether the number at `x` is greater than that at `y`.
pub open spec fn greater_first(xs: Seq<u64>) -> spec_fn(int, int) -> bool {
    |x: int, y: int| less(xs[y], xs[x])
}

proof fn lemma_greater_first(xs: Seq<u64>)
    requires
        forall|i: int| 0 <= i < xs.len() ==> !is_nan(#[trigger] xs[i]),
    ensures
        is_weak_order(greater_first(xs), xs.len() as int),
{
    let lt = greater_first(xs);
    assert forall|x: int| 0 <= x < xs.len() implies !#[trigger] lt(x, x) by {}
    assert forall|x: int, y: int|
        0 <= x < xs.len() && 0 <= y < xs.len() && #[trigger] lt(x, y) implies !lt(y, x) by {}
}

/// The places of numbers from the greatest to the least, equal ones as they stand.
pub fn rank_down(xs: &Vec<u64>) -> (r: Vec<usize>)
    ensures
        is_all_of(r@, 0, xs@.len() as int),
        (forall|i: int| 0 <= i < xs@.len() ==> !is_nan(#[trigger] xs@[i])) ==> is_stable_sort(
            r@,
            xs@.len() as int,
            greater_first(xs@),
        ),
{
    let n: usize = xs.len();
    let ghost lt = greater_first(xs@);
    let greater = |x: usize, y: usize| -> (b: bool)
        requires
            x < xs@.len(),
            y < xs@.len(),
        ensures
            b == less(xs@[y as int], xs@[x as int]),
        { bits_less(xs[y], xs[x]) };
    let order = stable_order(n, &greater, Ghost(lt));
    proof {
        if forall|i: int| 0 <= i < xs@.len() ==> !is_nan(#[trigger] xs@[i]) {
            lemma_greater_first(xs@);
        }
    }
    order
}

/// The places, in the order of `order`, of the numbers above zero.
pub open spec fn above_zero(xs: Seq<u64>, order: Seq<usize>, n: nat) -> Seq<usize>
    decreases n,
{
    if n == 0 || n > order.len() {
        Seq::empty()
    } else {
        let before = above_zero(xs, order, (n - 1) as nat);
        if less(0, xs[order[n - 1] as int]) {
            before.push(order[n - 1])
        } else {
            before
        }
    }
}

/// The places of the tiles of a tree map, the largest first: those of the numbers
/// above zero.
pub fn tile_order(xs: &Vec<u64>) -> (r: Vec<usize>)
    ensures
        exists|order: Seq<usize>|
            #![trigger is_all_of(order, 0, xs@.len() as int)]
            is_all_of(order, 0, xs@.len() as int) && ((forall|i: int|
                0 <= i < xs@.len() ==> !is_nan(#[trigger] xs@[i])) ==> is_stable_sort(
                order,
                xs@.len() as int,
                greater_first(xs@),
            )) && r@ == above_zero(xs@, order, order.len()),
{
    let order = rank_down(xs);
    let mut out: Vec<usize> = Vec::new();
    let mut i: usize = 0;
    while i < order.len()
        invariant
            i <= order@.len(),
            is_all_of(order@, 0, xs@.len() as int),
            out@ == above_zero(xs@, order@, i as nat),
        decreases order@.len() - i,
    {
        assert(0 <= order@[i as int] < xs@.len());
        if bits_less(0, xs[order[i]]) {
            out.push(order[i]);
        }
        i = i + 1;
    }
    out
}

/// The places of the quartiles among `n` sorted numbers.
pub open spec fn quartile_places(n: int) -> Seq<int> {
    seq![0, (n + 1) / 4, n / 2, (3 * n - 1) / 4, n - 1]
}

/// The least number, the three quartiles and the greatest number.
pub open spec fn quartiles(sorted: Seq<u64>) -> Seq<u64> {
    Seq::new(5, |i: int| sorted[quartile_places(sorted.len() as int)[i]])
}

/// The five numbers that a box plot shows of a list that is not empty.
pub fn five_number(xs: &Vec<u64>) -> (r: Option<Vec<u64>>)
    ensures
        match r {
            Some(five) => xs@.len() > 0 && exists|sorted: Seq<u64>|
                #[trigger] crate::sorting::is_sorted_copy(
                    xs@,
                    sorted,
                    crate::ordering::num_key_order(xs@, false),
                ) && five@ == quartiles(sorted),
            None => xs@.len() == 0,
        },
{
    if xs.len() == 0 {
        return None;
    }
    let sorted = sort_numbers_up(xs);
    let n: usize = sorted.len();
    proof {
        let order = choose|order: Seq<usize>|
            #[trigger] crate::sorting::is_arrangement(xs@, sorted@, order);
        assert(sorted@.len() == xs@.len());
    }
    let wide = n as u128;
    let q1: usize = ((wide + 1) / 4) as usize;
    let q2: usize = n / 2;
    let q3: usize = ((3 * wide - 1) / 4) as usize;
    let mut five: Vec<u64> = Vec::new();
    five.push(sorted[0]);
    five.push(sorted[q1]);
    five.push(sorted[q2]);
    five.push(sorted[q3]);
    five.push(sorted[n - 1]);
    assert(five@ =~= quartiles(sorted@));
    Some(five)
}

// ── bins ────────────────────────────────────────────────────────────────────

/// How many bins a histogram has.
pub open spec fn bin_count(opts: Json) -> u64 {
    match as_u64(field(opts, "bins"@)) {
        Some(n) => if n < 1 {
            1
        } else if n > 200 {
            200
        } else {
            n
        },
        None => 10,
    }
}

pub fn read_bin_count(opts: &Value) -> (n: u64)
    ensures
        n == bin_count(opts.deep_view()),
        1 <= n <= 200,
{
    match opts.u64_at("bins") {
        Some(n) => if n < 1 {
            1
        } else if n > 200 {
            200
        } else {
            n
        },
        None => 10,
    }
}

/// How many of the first `n` places fall into bin `b` of `bins`; what lies behind the
/// last bin falls into it.
pub open spec fn in_bin(places: Seq<u64>, bins: int, b: int, n: nat) -> nat
    decreases n,
{
    if n == 0 || n > places.len() {
        0
    } else {
        let p = if places[n - 1] >= bins {
            bins - 1
        } else {
            places[n - 1] as int
        };
        in_bin(places, bins, b, (n - 1) as nat) + if p == b {
            1nat
        } else {
            0nat
        }
    }
}

/// Counts per bin.
pub open spec fn bin_counts(places: Seq<u64>, bins: int) -> Seq<u64> {
    Seq::new(bins as nat, |b: int| in_bin(places, bins, b, places.len()) as u64)
}

proof fn lemma_in_bin(places: Seq<u64>, bins: int, b: int, n: nat)
    ensures
        in_bin(places, bins, b, n) <= n,
    decreases n,
{
    if n > 0 && n <= places.len() {
        lemma_in_bin(places, bins, b, (n - 1) as nat);
    }
}

/// Counts how many numbers fall into each bin of a histogram.
pub fn count_bins(places: &Vec<u64>, bins: u64) -> (r: Vec<u64>)
    requires
        1 <= bins <= 200,
    ensures
        r@ == bin_counts(places@, bins as int),
{
    let mut out: Vec<u64> = Vec::new();
    let mut b: u64 = 0;
    while b < bins
        invariant
            b <= bins,
            out@ == Seq::new(b as nat, |k: int| 0u64),
        decreases bins - b,
    {
        out.push(0);
        b = b + 1;
        assert(out@ =~= Seq::new(b as nat, |k: int| 0u64));
    }
    let total: usize = places.len();
    let mut i: usize = 0;
    while i < total
        invariant
            i <= total,
            total == places@.len(),
            1 <= bins <= 200,
            out@.len() == bins,
            forall|k: int| 0 <= k < bins ==> #[trigger] out@[k] == in_bin(places@, bins as int, k, i as nat),
        decreases total - i,
    {
        let p: u64 = if places[i] >= bins {
            bins - 1
        } else {
            places[i]
        };
        let ghost was = out@;
        proof {
            lemma_in_bin(places@, bins as int, p as int, i as nat);
        }
        assert(out@[p as int] <= i);
        let c: u64 = out[p as usize];
        out[p as usize] = c + 1;
        i = i + 1;
        assert forall|k: int| 0 <= k < bins implies #[trigger] out@[k] == in_bin(
            places@,
            bins as int,
            k,
            i as nat,
        ) by {
            assert(was[k] == in_bin(places@, bins as int, k, (i - 1) as nat));
        }
    }
    proof {
        assert forall|k: int| 0 <= k < bins implies out@[k] == bin_counts(
            places@,
            bins as int,
        )[k] by {
            lemma_in_bin(places@, bins as int, k, total as nat);
        }
    }
    assert(out@ =~= bin_counts(places@, bins as int));
    out
}

/// The total of the first `n` bins.
pub open spec fn bins_total(counts: Seq<u64>, n: nat) -> nat
    decreases n,
{
    if n == 0 || n > counts.len() {
        0
    } else {
        bins_total(counts, (n - 1) as nat) + counts[n - 1] as nat
    }
}

proof fn lemma_bins_below(places: Seq<u64>, bins: int, n: nat, upto: nat)
    requires
        1 <= bins,
        n < places.len(),
        upto <= bins,
    ensures
        fill_below(places, bins, (n + 1) as nat, upto) == fill_below(places, bins, n, upto) + if (if places[n as int]
            >= bins {
            bins - 1
        } else {
            places[n as int] as int
        }) < upto {
            1nat
        } else {
            0nat
        },
    decreases upto,
{
    if upto > 0 {
        lemma_bins_below(places, bins, n, (upto - 1) as nat);
    }
}

spec fn fill_below(places: Seq<u64>, bins: int, n: nat, upto: nat) -> nat
    decreases upto,
{
    if upto == 0 {
        0
    } else {
        fill_below(places, bins, n, (upto - 1) as nat) + in_bin(places, bins, upto - 1, n)
    }
}

proof fn lemma_fill_all(places: Seq<u64>, bins: int, n: nat)
    requires
        1 <= bins,
        n <= places.len(),
    ensures
        fill_below(places, bins, n, bins as nat) == n,
    decreases n,
{
    if n == 0 {
        lemma_fill_none(places, bins, bins as nat);
    } else {
        lemma_fill_all(places, bins, (n - 1) as nat);
        lemma_bins_below(places, bins, (n - 1) as nat, bins as nat);
    }
}

proof fn lemma_fill_none(places: Seq<u64>, bins: int, upto: nat)
    ensures
        fill_below(places, bins, 0, upto) == 0,
    decreases upto,
{
    if upto > 0 {
        lemma_fill_none(places, bins, (upto - 1) as nat);
    }
}

proof fn lemma_total_is_fill(places: Seq<u64>, bins: int, upto: nat)
    requires
        upto <= bins,
        places.len() <= u64::MAX,
    ensures
        bins_total(bin_counts(places, bins), upto) == fill_below(places, bins, places.len(), upto),
    decreases upto,
{
    if upto > 0 {
        lemma_total_is_fill(places, bins, (upto - 1) as nat);
        lemma_in_bin(places, bins, upto - 1, places.len());
    }
}

/// A histogram loses no number: its counts add up to how many there are.
pub proof fn bins_hold_every_number(places: Seq<u64>, bins: int)
    requires
        1 <= bins,
        places.len() <= u64::MAX,
    ensures
        bins_total(bin_counts(places, bins), bins as nat) == places.len(),
{
    lemma_total_is_fill(places, bins, bins as nat);
    lemma_fill_all(places, bins, places.len());
}

// ── cells of a waffle ───────────────────────────────────────────────────────

/// The total of the first `n` counts.
pub open spec fn counts_total(counts: Seq<int>, n: nat) -> int
    decreases n,
{
    if n == 0 || n > counts.len() {
        0
    } else {
        counts_total(counts, (n - 1) as nat) + counts[n - 1]
    }
}

/// The counts after `k` more were dealt out, one each in the order of `order`, again
/// and again.
pub open spec fn dealt(counts: Seq<int>, order: Seq<usize>, k: nat) -> Seq<int>
    decreases k,
{
    if k == 0 || order.len() == 0 {
        counts
    } else {
        let before = dealt(counts, order, (k - 1) as nat);
        let to = order[(k - 1) % (order.len() as int)] as int;
        before.update(to, before[to] + 1)
    }
}

/// How many are to be dealt out for a hundred in all.
pub open spec fn missing_cells(counts: Seq<int>) -> nat {
    if counts_total(counts, counts.len()) < 100 {
        (100 - counts_total(counts, counts.len())) as nat
    } else {
        0
    }
}

/// The category of each cell: as many cells for each as its count, a hundred at most.
pub open spec fn cells_of(counts: Seq<int>, n: nat) -> Seq<usize>
    decreases n,
{
    if n == 0 || n > counts.len() {
        Seq::empty()
    } else {
        let before = cells_of(counts, (n - 1) as nat);
        let more = if counts[n - 1] > 0 {
            counts[n - 1]
        } else {
            0
        };
        let room = 100 - before.len();
        before + Seq::new(
            (if more < room {
                more
            } else {
                room
            }) as nat,
            |i: int| (n - 1) as usize,
        )
    }
}

pub open spec fn ints(s: Seq<i64>) -> Seq<int> {
    Seq::new(s.len(), |i: int| s[i] as int)
}

proof fn lemma_total_update(counts: Seq<int>, to: int, n: nat)
    requires
        0 <= to < counts.len(),
        n <= counts.len(),
    ensures
        counts_total(counts.update(to, counts[to] + 1), n) == counts_total(counts, n) + if to < n {
            1int
        } else {
            0int
        },
    decreases n,
{
    if n > 0 {
        lemma_total_update(counts, to, (n - 1) as nat);
    }
}

proof fn lemma_dealt(counts: Seq<int>, order: Seq<usize>, k: nat)
    requires
        is_all_of(order, 0, counts.len() as int),
        counts.len() > 0,
    ensures
        dealt(counts, order, k).len() == counts.len(),
        counts_total(dealt(counts, order, k), counts.len()) == counts_total(counts, counts.len())
            + k,
        forall|i: int|
            0 <= i < counts.len() ==> counts[i] <= #[trigger] dealt(counts, order, k)[i] <= counts[i]
                + k,
    decreases k,
{
    if k > 0 {
        lemma_dealt(counts, order, (k - 1) as nat);
        let before = dealt(counts, order, (k - 1) as nat);
        let at = (k - 1) % (order.len() as int);
        assert(0 <= at < order.len()) by (nonlinear_arith)
            requires
                order.len() > 0,
                at == (k - 1) % (order.len() as int),
        ;
        let to = order[at] as int;
        assert(0 <= to < counts.len());
        lemma_total_update(before, to, counts.len());
        assert forall|i: int| 0 <= i < counts.len() implies counts[i] <= #[trigger] dealt(
            counts,
            order,
            k,
        )[i] <= counts[i] + k by {
            assert(counts[i] <= before[i] <= counts[i] + k - 1);
        }
    }
}

proof fn lemma_total_bounds(counts: Seq<int>, lo: int, hi: int, n: nat)
    requires
        n <= counts.len(),
        forall|i: int| 0 <= i < counts.len() ==> lo <= #[trigger] counts[i] <= hi,
    ensures
        lo * n <= counts_total(counts, n) <= hi * n,
    decreases n,
{
    if n > 0 {
        lemma_total_bounds(counts, lo, hi, (n - 1) as nat);
        assert(lo * n == lo * (n - 1) + lo) by (nonlinear_arith);
        assert(hi * n == hi * (n - 1) + hi) by (nonlinear_arith);
    } else {
        assert(lo * n == 0 && hi * n == 0) by (nonlinear_arith)
            requires
                n == 0,
        ;
    }
}

/// Shares a hundred cells out: to each category the whole percents it has, and one more
/// to those with the greatest remainders until there are a hundred.
pub fn waffle_cells(percents: &Vec<i32>, remainders: &Vec<u64>) -> (r: Vec<usize>)
    requires
        percents@.len() == remainders@.len(),
        percents@.len() < 0x8000_0000,
    ensures
        exists|order: Seq<usize>| #[trigger]
            is_all_of(order, 0, remainders@.len() as int) && ((forall|i: int|
                0 <= i < remainders@.len() ==> !is_nan(#[trigger] remainders@[i]))
                ==> is_stable_sort(order, remainders@.len() as int, greater_first(remainders@)))
                && r@ == cells_of(
                dealt(
                    percents@.map_values(|p: i32| p as int),
                    order,
                    missing_cells(percents@.map_values(|p: i32| p as int)),
                ),
                percents@.len(),
            ),
{
    let n: usize = percents.len();
    let ghost first = percents@.map_values(|p: i32| p as int);
    let order = rank_down(remainders);
    let mut counts: Vec<i64> = Vec::new();
    let mut total: i64 = 0;
    let mut i: usize = 0;
    while i < n
        invariant
            i <= n,
            n == percents@.len(),
            n < 0x8000_0000,
            first == percents@.map_values(|p: i32| p as int),
            ints(counts@) == first.take(i as int),
            total == counts_total(first, i as nat),
            -0x8000_0000 * i <= total <= 0x8000_0000 * i,
        decreases n - i,
    {
        let p: i64 = percents[i] as i64;
        let ghost was = counts@;
        assert(-0x8000_0000 * (i + 1) <= total + p <= 0x8000_0000 * (i + 1));
        total = total + p;
        counts.push(p);
        assert(ints(counts@) =~= ints(was).push(first[i as int]));
        i = i + 1;
        assert(ints(counts@) =~= first.take(i as int));
    }
    assert(first.take(n as int) =~= first);
    let ghost missing = missing_cells(first);
    if n > 0 {
        let ghost mut k: nat = 0;
        let mut ri: usize = 0;
        while total < 100
            invariant
                0 < n,
                n == percents@.len(),
                n < 0x8000_0000,
                first == percents@.map_values(|p: i32| p as int),
                first.len() == n,
                is_all_of(order@, 0, n as int),
                missing == missing_cells(first),
                k <= missing,
                ints(counts@) == dealt(first, order@, k),
                total == counts_total(first, n as nat) + k,
                total < 100 ==> k < missing,
                total >= 100 ==> k == missing,
                -0x8000_0000 * 0x8000_0000 <= total,
                ri < n,
                ri == k % (n as nat),
            decreases missing - k,
        {
            let ghost was = counts@;
            proof {
                lemma_dealt(first, order@, k);
                lemma_total_bounds(first, -0x8000_0000, 0x7fff_ffff, n as nat);
                assert(order@.len() == n);
                assert(((k + 1) - 1) % (order@.len() as int) == ri);
            }
            let to: usize = order[ri];
            assert(0 <= order@[ri as int] < n);
            assert(counts@.len() == n);
            assert(ints(counts@)[to as int] == counts@[to as int]);
            assert(counts@[to as int] <= first[to as int] + k);
            assert(k <= 100 + 0x8000_0000 * 0x8000_0000) by {
                assert(counts_total(first, n as nat) >= -0x8000_0000 * n);
                assert(0x8000_0000 * n <= 0x8000_0000 * 0x8000_0000);
            }
            let c: i64 = counts[to];
            counts[to] = c + 1;
            assert(ints(counts@) =~= dealt(first, order@, k + 1));
            total = total + 1;
            proof {
                assert((k + 1) % (n as nat) == (if ri + 1 == n { 0 } else { (ri + 1) as nat })) by {
                    vstd::arithmetic::div_mod::lemma_fundamental_div_mod(k as int, n as int);
                    let q = k as int / n as int;
                    assert(n * q == q * n) by (nonlinear_arith);
                    if ri + 1 == n {
                        assert(k + 1 == n * q + n);
                        assert(n * q + n == n * (q + 1)) by (nonlinear_arith);
                        vstd::arithmetic::div_mod::lemma_fundamental_div_mod_converse(
                            k as int + 1,
                            n as int,
                            q + 1,
                            0,
                        );
                    } else {
                        vstd::arithmetic::div_mod::lemma_fundamental_div_mod_converse(
                            k as int + 1,
                            n as int,
                            q,
                            ri as int + 1,
                        );
                    }
                }
                k = k + 1;
            }
            ri = if ri + 1 == n {
                0
            } else {
                ri + 1
            };
        }
    }
    let ghost last = dealt(first, order@, missing);
    proof {
        if n > 0 {
            lemma_dealt(first, order@, missing);
        }
    }
    assert(ints(counts@) == last);
    assert(ints(counts@).len() == n);
    let mut cells: Vec<usize> = Vec::new();
    let mut c: usize = 0;
    while c < n
        invariant
            c <= n,
            n == counts@.len(),
            ints(counts@) == last,
            cells@ == cells_of(last, c as nat),
            cells@.len() <= 100,
        decreases n - c,
    {
        let ghost before = cells@;
        assert(last[c as int] == counts@[c as int]);
        let ghost more = if last[c as int] > 0 { last[c as int] } else { 0 };
        let mut j: i64 = 0;
        while j < counts[c] && cells.len() < 100
            invariant
                c < n,
                n == counts@.len(),
                0 <= j,
                j <= counts@[c as int] || j == 0,
                cells@ == before + Seq::new(j as nat, |i: int| c),
                before.len() <= 100,
                cells@.len() <= 100,
            decreases counts@[c as int] - j,
        {
            cells.push(c);
            j = j + 1;
            assert(cells@ =~= before + Seq::new(j as nat, |i: int| c));
        }
        c = c + 1;
        assert(cells@ =~= cells_of(last, c as nat));
    }
    cells
}

proof fn lemma_cells_len(counts: Seq<int>, n: nat)
    requires
        n <= counts.len(),
        forall|i: int| 0 <= i < counts.len() ==> 0 <= #[trigger] counts[i],
    ensures
        cells_of(counts, n).len() == (if counts_total(counts, n) < 100 {
            counts_total(counts, n)
        } else {
            100
        }),
        counts_total(counts, n) >= 0,
    decreases n,
{
    if n > 0 {
        lemma_cells_len(counts, (n - 1) as nat);
        assert(0 <= counts[n - 1]);
    }
}

/// A waffle has no hole: whole percents that do not exceed a hundred become a hundred
/// cells.
pub proof fn waffles_are_full(percents: Seq<int>, order: Seq<usize>)
    requires
        percents.len() > 0,
        is_all_of(order, 0, percents.len() as int),
        forall|i: int| 0 <= i < percents.len() ==> 0 <= #[trigger] percents[i],
        counts_total(percents, percents.len()) <= 100,
    ensures
        cells_of(dealt(percents, order, missing_cells(percents)), percents.len()).len() == 100,
{
    let k = missing_cells(percents);
    lemma_dealt(percents, order, k);
    let last = dealt(percents, order, k);
    assert forall|i: int| 0 <= i < last.len() implies 0 <= #[trigger] last[i] by {
        assert(percents[i] <= last[i]);
    }
    lemma_cells_len(last, percents.len());
}

// ── cells of a hexagonal grid ───────────────────────────────────────────────

/// Where a cell stands in a list of counted cells.
pub open spec fn cell_pos(found: Seq<((i32, i32), u64)>, cell: (i32, i32), i: int) -> int
    decreases found.len() - i,
{
    if i >= found.len() || found[i].0 == cell {
        i
    } else {
        cell_pos(found, cell, i + 1)
    }
}

/// The cells among the first `n` points, in the order in which they come, each with how
/// many of the points it holds.
pub open spec fn counted_cells(points: Seq<(i32, i32)>, n: nat) -> Seq<((i32, i32), u64)>
    decreases n,
{
    if n == 0 || n > points.len() {
        Seq::empty()
    } else {
        let before = counted_cells(points, (n - 1) as nat);
        let at = cell_pos(before, points[n - 1], 0);
        if at < before.len() {
            before.update(at, (points[n - 1], (before[at].1 + 1) as u64))
        } else {
            before.push((points[n - 1], 1))
        }
    }
}

proof fn lemma_cell_pos(found: Seq<((i32, i32), u64)>, cell: (i32, i32), i: int)
    requires
        0 <= i <= found.len(),
    ensures
        i <= cell_pos(found, cell, i) <= found.len(),
        cell_pos(found, cell, i) < found.len() ==> found[cell_pos(found, cell, i)].0 == cell,
        forall|k: int| i <= k < cell_pos(found, cell, i) ==> (#[trigger] found[k]).0 != cell,
    decreases found.len() - i,
{
    if i < found.len() && found[i].0 != cell {
        lemma_cell_pos(found, cell, i + 1);
    }
}

proof fn lemma_counted_bound(points: Seq<(i32, i32)>, n: nat)
    requires
        n <= points.len(),
        points.len() <= u64::MAX,
    ensures
        forall|i: int|
            0 <= i < counted_cells(points, n).len() ==> (#[trigger] counted_cells(points, n)[i]).1
                <= n,
    decreases n,
{
    if n > 0 {
        lemma_counted_bound(points, (n - 1) as nat);
        let before = counted_cells(points, (n - 1) as nat);
        lemma_cell_pos(before, points[n - 1], 0);
        assert forall|i: int| 0 <= i < counted_cells(points, n).len() implies (
        #[trigger] counted_cells(points, n)[i]).1 <= n by {
            if i < before.len() {
                assert(before[i].1 <= n - 1);
            }
        }
    }
}

/// Counts the points in each cell of a hexagonal grid.
pub fn count_cells(points: &Vec<(i32, i32)>) -> (r: Vec<((i32, i32), u64)>)
    ensures
        r@ == counted_cells(points@, points@.len()),
{
    let total: usize = points.len();
    let mut out: Vec<((i32, i32), u64)> = Vec::new();
    let mut i: usize = 0;
    while i < total
        invariant
            i <= total,
            total == points@.len(),
            out@ == counted_cells(points@, i as nat),
        decreases total - i,
    {
        let cell = points[i];
        let mut at: usize = 0;
        while at < out.len() && !(out[at].0.0 == cell.0 && out[at].0.1 == cell.1)
            invariant
                at <= out@.len(),
                cell_pos(out@, cell, 0) == cell_pos(out@, cell, at as int),
            decreases out@.len() - at,
        {
            at = at + 1;
        }
        proof {
            lemma_counted_bound(points@, i as nat);
        }
        if at < out.len() {
            assert(out@[at as int].1 <= i);
            let c: u64 = out[at].1;
            out[at] = (cell, c + 1);
        } else {
            out.push((cell, 1));
        }
        i = i + 1;
    }
    out
}

/// The total of the first `n` counted cells.
pub open spec fn cells_total(found: Seq<((i32, i32), u64)>, n: nat) -> nat
    decreases n,
{
    if n == 0 || n > found.len() {
        0
    } else {
        cells_total(found, (n - 1) as nat) + found[n - 1].1 as nat
    }
}

proof fn lemma_cells_update(found: Seq<((i32, i32), u64)>, at: int, n: nat)
    requires
        0 <= at < found.len(),
        n <= found.len(),
        found[at].1 < u64::MAX,
    ensures
        cells_total(found.update(at, (found[at].0, (found[at].1 + 1) as u64)), n) == cells_total(
            found,
            n,
        ) + if at < n {
            1nat
        } else {
            0nat
        },
    decreases n,
{
    if n > 0 {
        lemma_cells_update(found, at, (n - 1) as nat);
    }
}

proof fn lemma_cells_push(found: Seq<((i32, i32), u64)>, x: ((i32, i32), u64), n: nat)
    requires
        n <= found.len(),
    ensures
        cells_total(found.push(x), n) == cells_total(found, n),
    decreases n,
{
    if n > 0 {
        lemma_cells_push(found, x, (n - 1) as nat);
    }
}

/// Every point is counted once.
pub proof fn cells_hold_every_point(points: Seq<(i32, i32)>, n: nat)
    requires
        n <= points.len(),
        points.len() <= u64::MAX,
    ensures
        cells_total(counted_cells(points, n), counted_cells(points, n).len()) == n,
    decreases n,
{
    if n > 0 {
        cells_hold_every_point(points, (n - 1) as nat);
        lemma_counted_bound(points, (n - 1) as nat);
        let before = counted_cells(points, (n - 1) as nat);
        let at = cell_pos(before, points[n - 1], 0);
        lemma_cell_pos(before, points[n - 1], 0);
        if at < before.len() {
            assert(before[at].1 <= n - 1);
            lemma_cells_update(before, at, before.len());
        } else {
            lemma_cells_push(before, (points[n - 1], 1), before.len());
        }
    }
}

// ── what figures are made of ────────────────────────────────────────────────

/// Whether a place falls into a bin: into its own, or into the last where it lies behind it.
pub open spec fn falls_into(p: u64, bins: int, b: int) -> bool {
    (b < bins - 1 && p == b) || (b == bins - 1 && p >= b)
}

proof fn lemma_falls_into(places: Seq<u64>, bins: int, b: int, n: nat)
    requires
        n <= places.len(),
        0 <= b < bins,
    ensures
        in_bin(places, bins, b, n) == places.take(n as int).filter(
            |p: u64| falls_into(p, bins, b),
        ).len(),
        in_bin(places, bins, b, n) <= n,
    decreases n,
{
    reveal(Seq::filter);
    if n > 0 {
        lemma_falls_into(places, bins, b, (n - 1) as nat);
        assert(places.take(n as int).drop_last() =~= places.take(n - 1));
        assert(places.take(n as int).last() == places[n - 1]);
    }
}

/// A bin counts what falls into it.
pub proof fn bins_count_what_falls_into_them(places: Seq<u64>, bins: int, b: int)
    requires
        places.len() <= u64::MAX,
        0 <= b < bins,
    ensures
        bin_counts(places, bins).len() == bins,
        bin_counts(places, bins)[b] == places.filter(|p: u64| falls_into(p, bins, b)).len(),
{
    lemma_falls_into(places, bins, b, places.len());
    assert(places.take(places.len() as int) =~= places);
}

/// The tasks of a chart are its series with a start and an end, in order, each with these.
pub proof fn tasks_have_a_start_and_an_end(series: Seq<Json>, n: nat)
    requires
        n <= series.len(),
    ensures
        tasks_of(series, n) == Seq::new(n, |i: int| i).filter(
            |i: int|
                number_at(series[i], "start"@) is Some && number_at(series[i], "end"@) is Some,
        ).map_values(
            |i: int|
                TaskView {
                    place: i as usize,
                    start: number_at(series[i], "start"@)->0,
                    end: number_at(series[i], "end"@)->0,
                },
        ),
    decreases n,
{
    reveal(Seq::filter);
    let all = Seq::new(n, |i: int| i);
    let is = |i: int|
        number_at(series[i], "start"@) is Some && number_at(series[i], "end"@) is Some;
    let get = |i: int|
        TaskView {
            place: i as usize,
            start: number_at(series[i], "start"@)->0,
            end: number_at(series[i], "end"@)->0,
        };
    if n > 0 {
        tasks_have_a_start_and_an_end(series, (n - 1) as nat);
        assert(all.drop_last() =~= Seq::new((n - 1) as nat, |i: int| i));
        assert(all.last() == n - 1);
        if is(n - 1) {
            assert(all.filter(is).map_values(get) =~= all.drop_last().filter(is).map_values(
                get,
            ).push(get(n - 1)));
        }
    } else {
        assert(all.filter(is).map_values(get) =~= Seq::<TaskView>::empty());
    }
}

/// A series of a combined chart is drawn as a line where it says so, and as bars where it does
/// not; none is drawn as both or as neither.
pub proof fn combined_series_are_lines_or_bars(series: Seq<Json>, lines: bool, n: nat)
    requires
        n <= series.len(),
    ensures
        combined(series, lines, n) == Seq::new(n, |i: int| i).filter(
            |i: int| lines <==> field(series[i], "kind"@) == Some(Json::Text("line"@)),
        ).map_values(|i: int| i as usize),
    decreases n,
{
    reveal(Seq::filter);
    let all = Seq::new(n, |i: int| i);
    let is = |i: int| lines <==> field(series[i], "kind"@) == Some(Json::Text("line"@));
    let get = |i: int| i as usize;
    if n > 0 {
        combined_series_are_lines_or_bars(series, lines, (n - 1) as nat);
        assert(all.drop_last() =~= Seq::new((n - 1) as nat, |i: int| i));
        assert(all.last() == n - 1);
        if is(n - 1) {
            assert(all.filter(is).map_values(get) =~= all.drop_last().filter(is).map_values(
                get,
            ).push(get(n - 1)));
        }
    } else {
        assert(all.filter(is).map_values(get) =~= Seq::<usize>::empty());
    }
}

/// How many points lie in a cell.
pub open spec fn points_in(points: Seq<(i32, i32)>, cell: (i32, i32)) -> nat {
    points.filter(|p: (i32, i32)| p == cell).len()
}

proof fn lemma_points_in(points: Seq<(i32, i32)>, cell: (i32, i32), n: nat)
    requires
        0 < n <= points.len(),
    ensures
        points_in(points.take(n as int), cell) == points_in(points.take(n - 1), cell) + (
        if points[n - 1] == cell {
            1nat
        } else {
            0
        }),
        points_in(points.take(n as int), cell) <= n,
{
    reveal(Seq::filter);
    let part = points.take(n as int);
    assert(part.drop_last() =~= points.take(n - 1));
    assert(part.last() == points[n - 1]);
    part.lemma_filter_len(|p: (i32, i32)| p == cell);
}

/// A cell counts the points that lie in it; no cell is listed twice or without a point, and
/// each point has its cell.
pub proof fn cells_count_their_points(points: Seq<(i32, i32)>, n: nat)
    requires
        n <= points.len(),
        points.len() <= u64::MAX,
    ensures
        ({
            let found = counted_cells(points, n);
            let part = points.take(n as int);
            &&& forall|i: int|
                0 <= i < found.len() ==> (#[trigger] found[i]).1 == points_in(part, found[i].0)
                    && found[i].1 > 0
            &&& forall|i: int, j: int|
                0 <= i < j < found.len() ==> (#[trigger] found[i]).0 != (#[trigger] found[j]).0
            &&& forall|cell: (i32, i32)| #[trigger]
                points_in(part, cell) > 0 ==> exists|i: int|
                    0 <= i < found.len() && (#[trigger] found[i]).0 == cell
        }),
    decreases n,
{
    if n == 0 {
        reveal(Seq::filter);
        let part = points.take(0);
        assert forall|cell: (i32, i32)| #[trigger] points_in(part, cell) == 0 by {}
    } else {
        cells_count_their_points(points, (n - 1) as nat);
        let was = counted_cells(points, (n - 1) as nat);
        let now = counted_cells(points, n);
        let p = points[n - 1];
        let at = cell_pos(was, p, 0);
        lemma_cell_pos(was, p, 0);
        let part = points.take(n as int);
        let less_one = points.take(n - 1);
        lemma_points_in(points, p, n);
        if at >= was.len() {
            assert(points_in(less_one, p) == 0) by {
                if points_in(less_one, p) > 0 {
                    let i = choose|i: int| 0 <= i < was.len() && (#[trigger] was[i]).0 == p;
                    assert(was[i].0 != p);
                }
            }
        }
        assert forall|i: int| 0 <= i < now.len() implies (#[trigger] now[i]).1 == points_in(
            part,
            now[i].0,
        ) && now[i].1 > 0 by {
            lemma_points_in(points, now[i].0, n);
            if i < was.len() {
                assert(was[i].1 == points_in(less_one, was[i].0));
                if i != at {
                    assert(now[i] == was[i]);
                    if was[i].0 == p && at < was.len() {
                        assert(was[at].0 == was[i].0);
                    }
                }
            }
        }
        assert forall|i: int, j: int| 0 <= i < j < now.len() implies (#[trigger] now[i]).0 != (
        #[trigger] now[j]).0 by {
            assert(i < was.len());
            assert(now[i].0 == was[i].0);
            if j < was.len() {
                assert(now[j].0 == was[j].0);
            }
        }
        assert forall|cell: (i32, i32)| #[trigger] points_in(part, cell) > 0 implies exists|i: int|
            0 <= i < now.len() && (#[trigger] now[i]).0 == cell by {
            lemma_points_in(points, cell, n);
            if cell == p {
                if at < was.len() {
                    assert(now[at].0 == cell);
                } else {
                    assert(now[was.len() as int].0 == cell);
                }
            } else {
                assert(points_in(less_one, cell) > 0);
                let i = choose|i: int| 0 <= i < was.len() && (#[trigger] was[i]).0 == cell;
                assert(now[i].0 == cell);
            }
        }
    }
}

proof fn lemma_more_items(series: Seq<Json>, s: Json, size: nat, k: int, n: nat)
    requires
        n <= series.len(),
    ensures
        all_items(series.push(s), size, k, n) == all_items(series, size, k, n),
        all_numbers(series.push(s), n) == all_numbers(series, n),
        all_coordinates(series.push(s), k, n) == all_coordinates(series, k, n),
    decreases n,
{
    if n > 0 {
        lemma_more_items(series, s, size, k, (n - 1) as nat);
    }
}

/// One more series widens the scale of a chart by what it shows: its numbers; of prices the
/// third of each four downwards and the second upwards; of ranges the first of each pair
/// downwards and the second upwards; of points the second number up and down and the first
/// across.
pub proof fn scales_reach_over_what_is_shown(series: Seq<Json>, s: Json, candles: bool)
    ensures
        ({
            let four = tuples_of(s, 4);
            let was = scale_of(Drawing::Prices { candles }, series);
            let now = scale_of(Drawing::Prices { candles }, series.push(s));
            &&& now->lows == was->lows + Seq::new(four.len(), |i: int| four[i][2])
            &&& now->highs == was->highs + Seq::new(four.len(), |i: int| four[i][1])
        }),
        ({
            let two = tuples_of(s, 2);
            let was = scale_of(Drawing::Range, series);
            let now = scale_of(Drawing::Range, series.push(s));
            &&& now->lows == was->lows + Seq::new(two.len(), |i: int| two[i][0])
            &&& now->highs == was->highs + Seq::new(two.len(), |i: int| two[i][1])
        }),
        ({
            let at = bubbles_of(s);
            let was = scale_of(Drawing::Scatter, series);
            let now = scale_of(Drawing::Scatter, series.push(s));
            &&& now->lows == was->lows + Seq::new(at.len(), |i: int| at[i].0[1])
            &&& now->highs == was->highs + Seq::new(at.len(), |i: int| at[i].0[1])
            &&& now->across == was->across + Seq::new(at.len(), |i: int| at[i].0[0])
        }),
{
    let n = series.len();
    lemma_more_items(series, s, 4, 2, n);
    lemma_more_items(series, s, 4, 1, n);
    lemma_more_items(series, s, 2, 0, n);
    lemma_more_items(series, s, 2, 1, n);
}

} // verus!
