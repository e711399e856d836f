//! Rows brought together by what a column holds: aggregates, pivot tables, lists of
//! values and counts of values.

use crate::columns::{
    column_label, column_texts, first_seen, first_seen_is_distinct, label_of_column, larger_bits,
    lemma_positions, positions_of, resolve_col, resolved_col, result_at, smaller_bits,
    texts_of_column,
};
use crate::deck::{haystack, make_haystack, unsigned};
use crate::deep::push_deep;
use crate::grid::{
    cell_at, copy_cell, data_start, first_data_row, get_cell, read_cell, Rows, RowsView,
};
use crate::ordering::{
    comes_before, is_blank, is_empty_in, lemma_trimmed_away, num_at, number_of, nums_view,
    sheet_cell_blank, shown_in, text_before, text_less, text_less_from, texts_come_by_their_letters,
    without_case, Nums,
};
use crate::reals::{bits_less, bits_nan};
use crate::sorting::{
    before, in_order, is_stable_sort, is_weak_order, lemma_all_there, lemma_stable_sort_exists,
    order_of, stable_order,
};
use crate::text::{chars_of, concat2, concat3, copy_text, join, join_texts, same, trim, trim_text};
use crate::value::{
    as_text, cell_text, cell_to_string, count_value, field, text_value, Json, Num, Value,
};
use vstd::prelude::*;

verus! {

// ── keys in order ───────────────────────────────────────────────────────────

/// Where a key belongs among ordered keys, from `i` on.
pub open spec fn key_place(sorted: Seq<Seq<char>>, key: Seq<char>, i: int) -> int
    decreases sorted.len() - i,
{
    if 0 <= i < sorted.len() && text_less(sorted[i], key) {
        key_place(sorted, key, i + 1)
    } else {
        i
    }
}

/// Ordered keys with one more, unless it is there.
pub open spec fn with_key(sorted: Seq<Seq<char>>, key: Seq<char>) -> Seq<Seq<char>> {
    let p = key_place(sorted, key, 0);
    if p < sorted.len() && sorted[p] == key {
        sorted
    } else {
        sorted.insert(p, key)
    }
}

/// The distinct keys among the first `n`, in their order.
pub open spec fn sorted_keys(keys: Seq<Seq<char>>, n: nat) -> Seq<Seq<char>>
    decreases n,
{
    if n == 0 || n > keys.len() {
        Seq::empty()
    } else {
        with_key(sorted_keys(keys, (n - 1) as nat), keys[n - 1])
    }
}

pub proof fn lemma_place(sorted: Seq<Seq<char>>, key: Seq<char>, i: int)
    requires
        0 <= i <= sorted.len(),
    ensures
        i <= key_place(sorted, key, i) <= sorted.len(),
        forall|k: int|
            i <= k < key_place(sorted, key, i) ==> text_less(#[trigger] sorted[k], key),
        key_place(sorted, key, i) < sorted.len() ==> !text_less(
            sorted[key_place(sorted, key, i)],
            key,
        ),
    decreases sorted.len() - i,
{
    if i < sorted.len() && text_less(sorted[i], key) {
        lemma_place(sorted, key, i + 1);
    }
}

proof fn lemma_texts_differ(a: Seq<char>, b: Seq<char>, i: int)
    requires
        0 <= i <= a.len(),
        i <= b.len(),
        forall|k: int| 0 <= k < i ==> a[k] == b[k],
        !text_less_from(a, b, i),
        !text_less_from(b, a, i),
    ensures
        a == b,
    decreases a.len() - i,
{
    if i < a.len() && i < b.len() {
        lemma_texts_differ(a, b, i + 1);
    } else {
        assert(a =~= b);
    }
}

/// Keys come in order, none of them twice.
pub open spec fn is_increasing(keys: Seq<Seq<char>>) -> bool {
    forall|i: int, j: int|
        0 <= i < j < keys.len() ==> text_less(#[trigger] keys[i], #[trigger] keys[j])
}

proof fn lemma_chain(a: Seq<char>, b: Seq<char>, c: Seq<char>)
    ensures
        text_less(a, b) && text_less(b, c) ==> text_less(a, c),
        !text_less(a, b) && !text_less(b, c) ==> !text_less(a, c),
        text_less(a, b) ==> !text_less(b, a),
{
    let keys = seq![a, b, c];
    crate::ordering::texts_are_ordered(keys, false);
    let lt = crate::ordering::text_key_order(keys, false);
    assert(lt(0, 1) == text_less(a, b));
    assert(lt(1, 0) == text_less(b, a));
    assert(lt(1, 2) == text_less(b, c));
    assert(lt(0, 2) == text_less(a, c));
}

/// The keys of groups come in order, none of them twice, and they are just the keys
/// that there are.
pub proof fn keys_are_ordered(keys: Seq<Seq<char>>, n: nat)
    requires
        n <= keys.len(),
    ensures
        is_increasing(sorted_keys(keys, n)),
        forall|k: Seq<char>| #[trigger]
            sorted_keys(keys, n).contains(k) <==> keys.take(n as int).contains(k),
    decreases n,
{
    let now = sorted_keys(keys, n);
    if n == 0 {
        assert forall|k: Seq<char>| #[trigger] now.contains(k) <==> keys.take(0).contains(k) by {}
    } else {
        let was = sorted_keys(keys, (n - 1) as nat);
        let key = keys[n - 1];
        keys_are_ordered(keys, (n - 1) as nat);
        lemma_place(was, key, 0);
        let p = key_place(was, key, 0);
        let there = p < was.len() && was[p] == key;
        if !there {
            assert(now == was.insert(p, key));
            if p < was.len() {
                if !text_less(key, was[p]) {
                    lemma_texts_differ(key, was[p], 0);
                }
            }
            assert forall|i: int, j: int| 0 <= i < j < now.len() implies text_less(
                #[trigger] now[i],
                #[trigger] now[j],
            ) by {
                if i < p && j == p {
                    assert(now[i] == was[i]);
                } else if i == p {
                    assert(now[j] == was[j - 1]);
                    if j - 1 > p {
                        lemma_chain(key, was[p], was[j - 1]);
                    }
                } else if i < p && j < p {
                    assert(now[i] == was[i] && now[j] == was[j]);
                } else if i < p {
                    assert(now[i] == was[i] && now[j] == was[j - 1]);
                } else {
                    assert(now[i] == was[i - 1] && now[j] == was[j - 1]);
                }
            }
        }
        assert forall|k: Seq<char>| #[trigger]
            now.contains(k) <==> keys.take(n as int).contains(k) by {
            let all = keys.take(n as int);
            let less_one = keys.take(n - 1);
            assert(all =~= less_one.push(key));
            if now.contains(k) {
                let i = choose|i: int| 0 <= i < now.len() && now[i] == k;
                if there {
                    assert(was.contains(k));
                } else if i == p {
                    assert(all[n - 1] == k);
                } else if i < p {
                    assert(was[i] == k);
                    assert(was.contains(k));
                } else {
                    assert(was[i - 1] == k);
                    assert(was.contains(k));
                }
                if was.contains(k) {
                    assert(less_one.contains(k));
                    let m = choose|m: int| 0 <= m < less_one.len() && less_one[m] == k;
                    assert(all[m] == k);
                }
            }
            if all.contains(k) {
                let m = choose|m: int| 0 <= m < all.len() && all[m] == k;
                if m == n - 1 {
                    if there {
                        assert(now[p] == k);
                    } else {
                        assert(now[p] == key);
                    }
                } else {
                    assert(less_one[m] == k);
                    assert(less_one.contains(k));
                    assert(was.contains(k));
                    let i = choose|i: int| 0 <= i < was.len() && was[i] == k;
                    if there {
                        assert(now[i] == k);
                    } else if i < p {
                        assert(now[i] == k);
                    } else {
                        assert(now[i + 1] == k);
                    }
                }
            }
        }
    }
}

fn insert_text(v: &mut Vec<String>, p: usize, s: String)
    requires
        p <= old(v)@.len(),
    ensures
        final(v).deep_view() == old(v).deep_view().insert(p as int, s@),
{
    let ghost before = v.deep_view();
    let ghost old_v = v@;
    v.insert(p, s);
    assert(v.deep_view() =~= before.insert(p as int, s@)) by {
        assert forall|i: int| 0 <= i < v@.len() implies v.deep_view()[i] == before.insert(
            p as int,
            s@,
        )[i] by {
            if i < p {
                assert(v@[i] == old_v[i]);
            } else if i > p {
                assert(v@[i] == old_v[i - 1]);
            }
        }
    }
}

/// The distinct keys of a list, in their order.
pub fn ordered_keys(keys: &Vec<String>) -> (r: Vec<String>)
    ensures
        r.deep_view() == sorted_keys(keys.deep_view(), keys@.len()),
{
    let ghost kv = keys.deep_view();
    let mut out: Vec<String> = Vec::new();
    let mut i: usize = 0;
    assert(out.deep_view() =~= Seq::<Seq<char>>::empty());
    while i < keys.len()
        invariant
            i <= keys@.len(),
            kv == keys.deep_view(),
            out.deep_view() == sorted_keys(kv, i as nat),
        decreases keys@.len() - i,
    {
        assert(kv[i as int] == keys@[i as int]@);
        let ghost ov = out.deep_view();
        let mut p: usize = 0;
        while p < out.len() && text_before(out[p].as_str(), keys[i].as_str())
            invariant
                p <= out@.len(),
                i < keys@.len(),
                ov == out.deep_view(),
                key_place(ov, keys@[i as int]@, 0) == key_place(ov, keys@[i as int]@, p as int),
            decreases out@.len() - p,
        {
            assert(ov[p as int] == out@[p as int]@);
            p = p + 1;
        }
        assert(ov.len() == out@.len());
        if p < out.len() {
            assert(ov[p as int] == out@[p as int]@);
        }
        let there = p < out.len() && same(out[p].as_str(), keys[i].as_str());
        if !there {
            insert_text(&mut out, p, keys[i].clone());
        }
        i = i + 1;
    }
    out
}

// ── groups and what they hold ───────────────────────────────────────────────

/// How many of the first `n` positions are marked.
pub open spec fn marked_count(marks: Seq<bool>, n: nat) -> nat
    decreases n,
{
    if n == 0 || n > marks.len() {
        0
    } else {
        marked_count(marks, (n - 1) as nat) + if marks[n - 1] {
            1nat
        } else {
            0
        }
    }
}

/// The numbers at the marked ones of the first `n` positions.
pub open spec fn marked_numbers(marks: Seq<bool>, vals: Seq<Option<u64>>, n: nat) -> Seq<u64>
    decreases n,
{
    if n == 0 || n > marks.len() {
        Seq::empty()
    } else {
        let before = marked_numbers(marks, vals, (n - 1) as nat);
        if marks[n - 1] && n <= vals.len() && vals[n - 1] is Some {
            before.push(vals[n - 1]->0)
        } else {
            before
        }
    }
}

/// What is known of a group: how many rows it has, and which numbers.
pub type Tally = (u64, Vec<u64>);

pub open spec fn tally_view(t: Tally) -> (nat, Seq<u64>) {
    (t.0 as nat, t.1@)
}

/// The tally of the marked positions.
pub open spec fn tally(marks: Seq<bool>, vals: Seq<Option<u64>>) -> (nat, Seq<u64>) {
    (marked_count(marks, marks.len()), marked_numbers(marks, vals, marks.len()))
}

fn count_marked(marks: &Vec<bool>, vals: &Vec<Option<u64>>) -> (r: Tally)
    ensures
        tally_view(r) == tally(marks@, vals@),
{
    let total: usize = marks.len();
    let mut count: u64 = 0;
    let mut numbers: Vec<u64> = Vec::new();
    let mut i: usize = 0;
    while i < total
        invariant
            i <= total,
            total == marks@.len(),
            count == marked_count(marks@, i as nat),
            count <= i,
            numbers@ == marked_numbers(marks@, vals@, i as nat),
        decreases total - i,
    {
        if marks[i] {
            count = count + 1;
            if i < vals.len() {
                match vals[i] {
                    Some(x) => {
                        numbers.push(x);
                    },
                    None => {},
                }
            }
        }
        i = i + 1;
    }
    (count, numbers)
}

/// Which keys are `key`.
pub open spec fn has_key(keys: Seq<Seq<char>>, key: Seq<char>) -> Seq<bool> {
    Seq::new(keys.len(), |i: int| keys[i] == key)
}

fn mark_key(keys: &Vec<String>, key: &str) -> (r: Vec<bool>)
    ensures
        r@ == has_key(keys.deep_view(), key@),
{
    let mut out: Vec<bool> = Vec::new();
    let mut i: usize = 0;
    while i < keys.len()
        invariant
            i <= keys@.len(),
            out@ == has_key(keys.deep_view(), key@).take(i as int),
        decreases keys@.len() - i,
    {
        assert(keys.deep_view()[i as int] == keys@[i as int]@);
        out.push(same(keys[i].as_str(), key));
        i = i + 1;
        assert(out@ =~= has_key(keys.deep_view(), key@).take(i as int));
    }
    assert(out@ =~= has_key(keys.deep_view(), key@));
    out
}

/// The readings of a column in the rows from `start` up to `end`; none where no column
/// is given.
pub open spec fn readings(
    nums: Seq<Seq<Option<u64>>>,
    start: int,
    end: int,
    c: Option<usize>,
) -> Seq<Option<u64>> {
    Seq::new(
        (end - start) as nat,
        |i: int|
            match c {
                Some(k) => num_at(nums, start + i, k as int),
                None => None,
            },
    )
}

pub fn column_readings(nums: &Nums, start: usize, end: usize, c: Option<usize>) -> (r: Vec<
    Option<u64>,
>)
    requires
        start <= end,
    ensures
        r@ == readings(nums_view(nums@), start as int, end as int, c),
{
    let ghost all = readings(nums_view(nums@), start as int, end as int, c);
    let mut out: Vec<Option<u64>> = Vec::new();
    let mut i: usize = start;
    while i < end
        invariant
            start <= i <= end,
            all == readings(nums_view(nums@), start as int, end as int, c),
            out@ == all.take(i - start),
        decreases end - i,
    {
        let v = match c {
            Some(k) => number_of(nums, i, k),
            None => None,
        };
        out.push(v);
        i = i + 1;
        assert(out@ =~= all.take(i - start));
    }
    assert(all.take(i - start) =~= all);
    out
}

// ── aggregates ──────────────────────────────────────────────────────────────

/// Whether an aggregate is known.
pub open spec fn is_agg(a: Seq<char>) -> bool {
    a == "count"@ || a == "sum"@ || a == "mean"@ || a == "min"@ || a == "max"@
}

/// The aggregate that options ask for, or a default one.
pub open spec fn wanted_agg(opts: Json, default: Seq<char>) -> Result<Seq<char>, Seq<char>> {
    let a = match as_text(field(opts, "agg"@)) {
        Some(t) => t,
        None => default,
    };
    if is_agg(a) {
        Ok(a)
    } else {
        Err("unknown agg: "@ + a)
    }
}

pub open spec fn res_text(r: Result<String, String>) -> Result<Seq<char>, Seq<char>> {
    match r {
        Ok(s) => Ok(s@),
        Err(e) => Err(e@),
    }
}

pub fn read_agg(opts: &Value, default: &str) -> (r: Result<String, String>)
    ensures
        res_text(r) == wanted_agg(opts.deep_view(), default@),
{
    let a = match opts.text_at("agg") {
        Some(t) => copy_text(t),
        None => copy_text(default),
    };
    let s = a.as_str();
    if same(s, "count") || same(s, "sum") || same(s, "mean") || same(s, "min") || same(s, "max") {
        Ok(a)
    } else {
        Err(concat2("unknown agg: ", s))
    }
}

/// The column that is aggregated: the one that options name; only a count does
/// without.
pub open spec fn wanted_value(opts: Json, agg: Seq<char>, header: bool, rows: RowsView) -> Result<
    Option<usize>,
    Seq<char>,
> {
    match field(opts, "value"@) {
        Some(v) => match resolved_col(
            Some(v),
            header,
            rows,
            "column must be a name or 0-based index"@,
        ) {
            Ok(c) => Ok(Some(c)),
            Err(e) => Err(e),
        },
        None => if agg == "count"@ {
            Ok(None)
        } else {
            Err("agg '"@ + agg + "' requires a value column"@)
        },
    }
}

pub open spec fn res_opt_col(r: Result<Option<usize>, String>) -> Result<
    Option<usize>,
    Seq<char>,
> {
    match r {
        Ok(c) => Ok(c),
        Err(e) => Err(e@),
    }
}

pub fn value_column(opts: &Value, agg: &str, header: bool, rows: &Rows) -> (r: Result<
    Option<usize>,
    String,
>)
    ensures
        res_opt_col(r) == wanted_value(opts.deep_view(), agg@, header, rows.deep_view()),
{
    match opts.get("value") {
        Some(v) => match resolve_col(Some(v), header, rows) {
            Ok(c) => Ok(Some(c)),
            Err(e) => Err(e),
        },
        None => if same(agg, "count") {
            Ok(None)
        } else {
            Err(concat3("agg '", agg, "' requires a value column"))
        },
    }
}

/// The smallest of the first `n` numbers, starting from infinity.
pub open spec fn least(xs: Seq<u64>, n: nat) -> u64
    decreases n,
{
    if n == 0 || n > xs.len() {
        0x7ff0_0000_0000_0000
    } else {
        smaller_bits(least(xs, (n - 1) as nat), xs[n - 1])
    }
}

/// The largest of the first `n` numbers, starting from minus infinity.
pub open spec fn greatest(xs: Seq<u64>, n: nat) -> u64
    decreases n,
{
    if n == 0 || n > xs.len() {
        0xfff0_0000_0000_0000
    } else {
        larger_bits(greatest(xs, (n - 1) as nat), xs[n - 1])
    }
}

pub fn least_of(xs: &Vec<u64>) -> (r: u64)
    ensures
        r == least(xs@, xs@.len()),
{
    let mut best: u64 = 0x7ff0_0000_0000_0000;
    let mut i: usize = 0;
    while i < xs.len()
        invariant
            i <= xs@.len(),
            best == least(xs@, i as nat),
        decreases xs@.len() - i,
    {
        if bits_nan(best) || bits_less(xs[i], best) {
            best = xs[i];
        }
        i = i + 1;
    }
    best
}

pub fn greatest_of(xs: &Vec<u64>) -> (r: u64)
    ensures
        r == greatest(xs@, xs@.len()),
{
    let mut best: u64 = 0xfff0_0000_0000_0000;
    let mut i: usize = 0;
    while i < xs.len()
        invariant
            i <= xs@.len(),
            best == greatest(xs@, i as nat),
        decreases xs@.len() - i,
    {
        if bits_nan(best) || bits_less(best, xs[i]) {
            best = xs[i];
        }
        i = i + 1;
    }
    best
}

/// The cell of an aggregate: a count as it is, a sum as computed, the others as
/// computed where there are numbers.
pub open spec fn agg_cell(agg: Seq<char>, t: (nat, Seq<u64>), computed: Json, blank: Json) -> Json {
    if agg == "count"@ {
        unsigned(t.0 as u64)
    } else if agg == "sum"@ || t.1.len() > 0 {
        computed
    } else {
        blank
    }
}

fn make_agg_cell(agg: &str, t: &Tally, computed: Value, blank: Value) -> (r: Value)
    ensures
        r.deep_view() == agg_cell(agg@, tally_view(*t), computed.deep_view(), blank.deep_view()),
{
    if same(agg, "count") {
        Value::Number(crate::value::Number::Unsigned(t.0))
    } else if same(agg, "sum") || t.1.len() > 0 {
        computed
    } else {
        blank
    }
}

/// The groups of a sheet by column `g`, in the order of their keys, each with its
/// tally of column `v`.
pub open spec fn sheet_groups(
    rows: RowsView,
    nums: Seq<Seq<Option<u64>>>,
    header: bool,
    g: int,
    v: Option<usize>,
) -> Seq<(Seq<char>, (nat, Seq<u64>))> {
    let start = data_start(header, rows);
    let keys = column_texts(rows, start, g);
    let order = sorted_keys(keys, keys.len());
    Seq::new(
        order.len(),
        |i: int|
            (
                order[i],
                tally(has_key(keys, order[i]), readings(nums, start, rows.len() as int, v)),
            ),
    )
}

pub open spec fn groups_view(gs: Seq<(String, Tally)>) -> Seq<(Seq<char>, (nat, Seq<u64>))> {
    Seq::new(gs.len(), |i: int| (gs[i].0@, tally_view(gs[i].1)))
}

/// The groups of a sheet by a column, with their tallies of another.
pub fn group_tallies(rows: &Rows, nums: &Nums, header: bool, g: usize, v: Option<usize>) -> (r: Vec<
    (String, Tally),
>)
    ensures
        groups_view(r@) == sheet_groups(
            rows.deep_view(),
            nums_view(nums@),
            header,
            g as int,
            v,
        ),
{
    let start = first_data_row(header, rows);
    let keys = texts_of_column(rows, start, g);
    let vals = column_readings(nums, start, rows.len(), v);
    let order = ordered_keys(&keys);
    let ghost all = sheet_groups(rows.deep_view(), nums_view(nums@), header, g as int, v);
    let mut out: Vec<(String, Tally)> = Vec::new();
    let mut i: usize = 0;
    assert(rows.deep_view().len() == rows@.len());
    assert(keys.deep_view().len() == keys@.len());
    while i < order.len()
        invariant
            i <= order@.len(),
            vals@ == readings(nums_view(nums@), start as int, rows@.len() as int, v),
            order.deep_view() == sorted_keys(keys.deep_view(), keys@.len()),
            all == Seq::new(
                order.deep_view().len(),
                |i: int|
                    (
                        order.deep_view()[i],
                        tally(has_key(keys.deep_view(), order.deep_view()[i]), vals@),
                    ),
            ),
            groups_view(out@) == all.take(i as int),
        decreases order@.len() - i,
    {
        assert(order.deep_view()[i as int] == order@[i as int]@);
        let marks = mark_key(&keys, order[i].as_str());
        let t = count_marked(&marks, &vals);
        let ghost was = out@;
        out.push((order[i].clone(), t));
        assert(groups_view(out@) =~= groups_view(was).push(all[i as int]));
        i = i + 1;
        assert(groups_view(out@) =~= all.take(i as int));
    }
    assert(all.take(i as int) =~= all);
    out
}

/// The header of the aggregated column.
pub open spec fn agg_label(
    agg: Seq<char>,
    header: bool,
    rows: RowsView,
    v: Option<usize>,
) -> Seq<char> {
    if agg == "count"@ {
        "count"@
    } else {
        agg + "_"@ + match v {
            Some(c) => column_label(header, rows, c as int),
            None => "value"@,
        }
    }
}

/// The rows of an aggregated sheet: a header, then for each group its key and its
/// aggregate.
pub open spec fn aggregate_rows(
    rows: RowsView,
    header: bool,
    g: int,
    v: Option<usize>,
    agg: Seq<char>,
    groups: Seq<(Seq<char>, (nat, Seq<u64>))>,
    computed: Seq<Json>,
) -> RowsView {
    seq![
        seq![
            Json::Text(column_label(header, rows, g)),
            Json::Text(agg_label(agg, header, rows, v)),
        ],
    ] + Seq::new(
        groups.len(),
        |i: int|
            seq![
                Json::Text(groups[i].0),
                agg_cell(agg, groups[i].1, result_at(computed, i), Json::Null),
            ],
    )
}

/// The rows of an aggregated sheet, from the groups and what was computed of the
/// numbers of each.
pub fn op_sheet_aggregate(
    rows: &Rows,
    header: bool,
    g: usize,
    v: Option<usize>,
    agg: &str,
    groups: &Vec<(String, Tally)>,
    computed: &Vec<Value>,
) -> (r: Rows)
    ensures
        r.deep_view() == aggregate_rows(
            rows.deep_view(),
            header,
            g as int,
            v,
            agg@,
            groups_view(groups@),
            computed.deep_view(),
        ),
{
    let label = if same(agg, "count") {
        copy_text("count")
    } else {
        let name = match v {
            Some(c) => label_of_column(header, rows, c),
            None => copy_text("value"),
        };
        concat3(agg, "_", name.as_str())
    };
    let ghost gv = groups_view(groups@);
    let ghost all = aggregate_rows(
        rows.deep_view(),
        header,
        g as int,
        v,
        agg@,
        gv,
        computed.deep_view(),
    );
    let mut out: Rows = Vec::new();
    let mut head: Vec<Value> = Vec::new();
    push_deep(&mut head, Value::Text(label_of_column(header, rows, g)));
    push_deep(&mut head, Value::Text(label));
    assert(head.deep_view() =~= all[0]);
    push_deep(&mut out, head);
    assert(out.deep_view() =~= all.take(1));
    let mut i: usize = 0;
    while i < groups.len()
        invariant
            i <= groups@.len(),
            gv == groups_view(groups@),
            all.len() == gv.len() + 1,
            forall|k: int|
                0 <= k < gv.len() ==> #[trigger] all[k + 1] == seq![
                    Json::Text(gv[k].0),
                    agg_cell(agg@, gv[k].1, result_at(computed.deep_view(), k), Json::Null),
                ],
            out.deep_view() == all.take(i + 1),
        decreases groups@.len() - i,
    {
        assert(gv[i as int] == (groups@[i as int].0@, tally_view(groups@[i as int].1)));
        let mut row: Vec<Value> = Vec::new();
        push_deep(&mut row, text_value(groups[i].0.as_str()));
        push_deep(
            &mut row,
            make_agg_cell(agg, &groups[i].1, copy_cell(computed, i), Value::Null),
        );
        assert(row.deep_view() =~= all[i + 1]);
        push_deep(&mut out, row);
        i = i + 1;
        assert(out.deep_view() =~= all.take(i + 1));
    }
    assert(all.take(i + 1) =~= all);
    out
}

// ── pivot tables ────────────────────────────────────────────────────────────

/// A pivot table before its cells are computed: the row keys, the column keys, and
/// the tally of each combination.
pub struct Pivot {
    pub rows: Vec<String>,
    pub cols: Vec<String>,
    pub cells: Vec<Vec<Tally>>,
}

/// Which positions have both keys.
pub open spec fn has_keys(
    a: Seq<Seq<char>>,
    b: Seq<Seq<char>>,
    ka: Seq<char>,
    kb: Seq<char>,
) -> Seq<bool> {
    Seq::new(a.len(), |i: int| a[i] == ka && i < b.len() && b[i] == kb)
}

pub open spec fn tallies_view(ts: Seq<Tally>) -> Seq<(nat, Seq<u64>)> {
    Seq::new(ts.len(), |i: int| tally_view(ts[i]))
}

/// Whether a pivot table is that of a sheet.
pub open spec fn is_pivot_of(
    p: Pivot,
    rows: RowsView,
    nums: Seq<Seq<Option<u64>>>,
    header: bool,
    rc: int,
    cc: int,
    v: Option<usize>,
) -> bool {
    let start = data_start(header, rows);
    let a = column_texts(rows, start, rc);
    let b = column_texts(rows, start, cc);
    let vals = readings(nums, start, rows.len() as int, v);
    &&& p.rows.deep_view() == sorted_keys(a, a.len())
    &&& p.cols.deep_view() == sorted_keys(b, b.len())
    &&& p.cells@.len() == p.rows@.len()
    &&& forall|i: int|
        0 <= i < p.cells@.len() ==> tallies_view((#[trigger] p.cells@[i])@) == Seq::new(
            p.cols@.len(),
            |j: int| tally(has_keys(a, b, p.rows@[i]@, p.cols@[j]@), vals),
        )
}

fn mark_keys(a: &Vec<String>, b: &Vec<String>, ka: &str, kb: &str) -> (r: Vec<bool>)
    ensures
        r@ == has_keys(a.deep_view(), b.deep_view(), ka@, kb@),
{
    let ghost all = has_keys(a.deep_view(), b.deep_view(), ka@, kb@);
    let mut out: Vec<bool> = Vec::new();
    let mut i: usize = 0;
    while i < a.len()
        invariant
            i <= a@.len(),
            all == has_keys(a.deep_view(), b.deep_view(), ka@, kb@),
            out@ == all.take(i as int),
        decreases a@.len() - i,
    {
        assert(a.deep_view()[i as int] == a@[i as int]@);
        assert(b.deep_view().len() == b@.len());
        let mut both = same(a[i].as_str(), ka);
        if both {
            if i < b.len() {
                assert(b.deep_view()[i as int] == b@[i as int]@);
                both = same(b[i].as_str(), kb);
            } else {
                both = false;
            }
        }
        out.push(both);
        i = i + 1;
        assert(out@ =~= all.take(i as int));
    }
    assert(all.take(i as int) =~= all);
    out
}

fn pivot_row(
    a: &Vec<String>,
    b: &Vec<String>,
    ka: &str,
    cols: &Vec<String>,
    vals: &Vec<Option<u64>>,
) -> (r: Vec<Tally>)
    ensures
        tallies_view(r@) == Seq::new(
            cols@.len(),
            |j: int| tally(has_keys(a.deep_view(), b.deep_view(), ka@, cols@[j]@), vals@),
        ),
{
    let ghost all = Seq::new(
        cols@.len(),
        |j: int| tally(has_keys(a.deep_view(), b.deep_view(), ka@, cols@[j]@), vals@),
    );
    let mut out: Vec<Tally> = Vec::new();
    let mut j: usize = 0;
    while j < cols.len()
        invariant
            j <= cols@.len(),
            all == Seq::new(
                cols@.len(),
                |j: int| tally(has_keys(a.deep_view(), b.deep_view(), ka@, cols@[j]@), vals@),
            ),
            tallies_view(out@) == all.take(j as int),
        decreases cols@.len() - j,
    {
        let marks = mark_keys(a, b, ka, cols[j].as_str());
        let ghost was = out@;
        out.push(count_marked(&marks, vals));
        assert(tallies_view(out@) =~= tallies_view(was).push(all[j as int]));
        j = j + 1;
        assert(tallies_view(out@) =~= all.take(j as int));
    }
    assert(all.take(j as int) =~= all);
    out
}

/// The pivot table of a sheet: its rows by column `rc`, its columns by column `cc`, and
/// column `v` tallied.
pub fn pivot_tallies(
    rows: &Rows,
    nums: &Nums,
    header: bool,
    rc: usize,
    cc: usize,
    v: Option<usize>,
) -> (r: Pivot)
    ensures
        is_pivot_of(
            r,
            rows.deep_view(),
            nums_view(nums@),
            header,
            rc as int,
            cc as int,
            v,
        ),
{
    let start = first_data_row(header, rows);
    let a = texts_of_column(rows, start, rc);
    let b = texts_of_column(rows, start, cc);
    let vals = column_readings(nums, start, rows.len(), v);
    assert(rows.deep_view().len() == rows@.len());
    assert(a.deep_view().len() == a@.len());
    assert(b.deep_view().len() == b@.len());
    let rk = ordered_keys(&a);
    let ck = ordered_keys(&b);
    let mut cells: Vec<Vec<Tally>> = Vec::new();
    let mut i: usize = 0;
    while i < rk.len()
        invariant
            i <= rk@.len(),
            cells@.len() == i,
            forall|k: int|
                0 <= k < i ==> tallies_view((#[trigger] cells@[k])@) == Seq::new(
                    ck@.len(),
                    |j: int|
                        tally(has_keys(a.deep_view(), b.deep_view(), rk@[k]@, ck@[j]@), vals@),
                ),
        decreases rk@.len() - i,
    {
        let ghost was = cells@;
        cells.push(pivot_row(&a, &b, rk[i].as_str(), &ck, &vals));
        assert forall|k: int| 0 <= k < i + 1 implies tallies_view((#[trigger] cells@[k])@)
            == Seq::new(
            ck@.len(),
            |j: int| tally(has_keys(a.deep_view(), b.deep_view(), rk@[k]@, ck@[j]@), vals@),
        ) by {
            if k < i {
                assert(cells@[k] == was[k]);
            }
        }
        i = i + 1;
    }
    Pivot { rows: rk, cols: ck, cells }
}

/// The cell of a pivot table: an aggregate, or where nothing has both keys zero for a
/// count or a sum and an empty text for the others.
pub open spec fn pivot_cell(agg: Seq<char>, t: (nat, Seq<u64>), computed: Json) -> Json {
    if t.0 > 0 {
        agg_cell(agg, t, computed, Json::Text(Seq::empty()))
    } else if agg == "count"@ || agg == "sum"@ {
        unsigned(0)
    } else {
        Json::Text(Seq::empty())
    }
}

fn make_pivot_cell(agg: &str, t: &Tally, computed: Value) -> (r: Value)
    ensures
        r.deep_view() == pivot_cell(agg@, tally_view(*t), computed.deep_view()),
{
    if t.0 > 0 {
        make_agg_cell(agg, t, computed, Value::Text(String::new()))
    } else if same(agg, "count") || same(agg, "sum") {
        count_value(0)
    } else {
        Value::Text(String::new())
    }
}

pub open spec fn pivot_at(p: Pivot, i: int, j: int) -> (nat, Seq<u64>) {
    tally_view(p.cells@[i]@[j])
}

/// The rows of a pivot table: the column keys under the name of the row column, then
/// for each row key its cells.
pub open spec fn pivot_rows(
    name: Seq<char>,
    p: Pivot,
    agg: Seq<char>,
    computed: RowsView,
) -> RowsView {
    seq![
        seq![Json::Text(name)] + Seq::new(p.cols@.len(), |j: int| Json::Text(p.cols@[j]@)),
    ] + Seq::new(
        p.rows@.len(),
        |i: int|
            seq![Json::Text(p.rows@[i]@)] + Seq::new(
                p.cols@.len(),
                |j: int| pivot_cell(agg, pivot_at(p, i, j), read_cell(computed, i, j)),
            ),
    )
}

/// Whether a pivot table has a tally for each combination.
pub open spec fn is_full(p: Pivot) -> bool {
    &&& p.cells@.len() == p.rows@.len()
    &&& forall|i: int| 0 <= i < p.cells@.len() ==> (#[trigger] p.cells@[i])@.len() == p.cols@.len()
}

/// The pivot table of a sheet has a tally for each combination.
pub proof fn pivots_are_full(
    p: Pivot,
    rows: RowsView,
    nums: Seq<Seq<Option<u64>>>,
    header: bool,
    rc: int,
    cc: int,
    v: Option<usize>,
)
    requires
        is_pivot_of(p, rows, nums, header, rc, cc, v),
    ensures
        is_full(p),
{
    assert forall|i: int| 0 <= i < p.cells@.len() implies (#[trigger] p.cells@[i])@.len()
        == p.cols@.len() by {
        assert(tallies_view(p.cells@[i]@).len() == p.cells@[i]@.len());
    }
}

fn make_pivot_row(p: &Pivot, i: usize, agg: &str, computed: &Rows) -> (r: Vec<Value>)
    requires
        is_full(*p),
        i < p.rows@.len(),
    ensures
        r.deep_view() == seq![Json::Text(p.rows@[i as int]@)] + Seq::new(
            p.cols@.len(),
            |j: int|
                pivot_cell(
                    agg@,
                    pivot_at(*p, i as int, j),
                    read_cell(computed.deep_view(), i as int, j),
                ),
        ),
{
    let ghost all = seq![Json::Text(p.rows@[i as int]@)] + Seq::new(
        p.cols@.len(),
        |j: int|
            pivot_cell(
                agg@,
                pivot_at(*p, i as int, j),
                read_cell(computed.deep_view(), i as int, j),
            ),
    );
    let mut row: Vec<Value> = Vec::new();
    push_deep(&mut row, text_value(p.rows[i].as_str()));
    assert(row.deep_view() =~= all.take(1));
    let mut j: usize = 0;
    assert(p.cells@[i as int]@.len() == p.cols@.len());
    while j < p.cols.len()
        invariant
            j <= p.cols@.len(),
            i < p.rows@.len(),
            p.cells@.len() == p.rows@.len(),
            p.cells@[i as int]@.len() == p.cols@.len(),
            all.len() == p.cols@.len() + 1,
            forall|j: int|
                0 <= j < p.cols@.len() ==> #[trigger] all[j + 1] == pivot_cell(
                    agg@,
                    pivot_at(*p, i as int, j),
                    read_cell(computed.deep_view(), i as int, j),
                ),
            row.deep_view() == all.take(j + 1),
        decreases p.cols@.len() - j,
    {
        let v = make_pivot_cell(agg, &p.cells[i][j], get_cell(computed, i, j));
        assert(v.deep_view() == all[j + 1]);
        push_deep(&mut row, v);
        j = j + 1;
        assert(row.deep_view() =~= all.take(j + 1));
    }
    assert(all.take(j + 1) =~= all);
    row
}

/// The rows of a pivot table, from its tallies and what was computed of the numbers of
/// each.
pub fn op_sheet_pivot(name: &str, p: &Pivot, agg: &str, computed: &Rows) -> (r: Rows)
    requires
        is_full(*p),
    ensures
        r.deep_view() == pivot_rows(name@, *p, agg@, computed.deep_view()),
{
    let ghost all = pivot_rows(name@, *p, agg@, computed.deep_view());
    let mut out: Rows = Vec::new();
    let mut head: Vec<Value> = Vec::new();
    push_deep(&mut head, text_value(name));
    let ghost hv = all[0];
    assert(head.deep_view() =~= hv.take(1));
    let mut j: usize = 0;
    while j < p.cols.len()
        invariant
            j <= p.cols@.len(),
            hv == seq![Json::Text(name@)] + Seq::new(
                p.cols@.len(),
                |j: int| Json::Text(p.cols@[j]@),
            ),
            head.deep_view() == hv.take(j + 1),
        decreases p.cols@.len() - j,
    {
        push_deep(&mut head, text_value(p.cols[j].as_str()));
        j = j + 1;
        assert(head.deep_view() =~= hv.take(j + 1));
    }
    assert(hv.take(j + 1) =~= hv);
    push_deep(&mut out, head);
    assert(out.deep_view() =~= all.take(1));
    let mut i: usize = 0;
    while i < p.rows.len()
        invariant
            i <= p.rows@.len(),
            is_full(*p),
            all == pivot_rows(name@, *p, agg@, computed.deep_view()),
            out.deep_view() == all.take(i + 1),
        decreases p.rows@.len() - i,
    {
        let row = make_pivot_row(p, i, agg, computed);
        assert(row.deep_view() == all[i + 1]);
        push_deep(&mut out, row);
        i = i + 1;
        assert(out.deep_view() =~= all.take(i + 1));
    }
    assert(all.take(i + 1) =~= all);
    out
}

// ── what tables of groups say ───────────────────────────────────────────────

/// Whether row `r` is a data row that shows a text in a column.
pub open spec fn shows(rows: RowsView, header: bool, r: int, c: int, key: Seq<char>) -> bool {
    &&& 0 <= r < rows.len()
    &&& header ==> r >= 1
    &&& key == cell_text(
        if 0 <= c < rows[r].len() {
            rows[r][c]
        } else {
            Json::Null
        },
    )
}

/// Whether row `r` shows one text in a column and another in a second column.
pub open spec fn shows_both(
    rows: RowsView,
    header: bool,
    r: int,
    rc: int,
    ka: Seq<char>,
    cc: int,
    kb: Seq<char>,
) -> bool {
    shows(rows, header, r, rc, ka) && shows(rows, header, r, cc, kb)
}

/// Whether `at` lists, from the top down, just the rows that show both texts.
pub open spec fn are_rows_with(
    at: Seq<int>,
    rows: RowsView,
    header: bool,
    rc: int,
    ka: Seq<char>,
    cc: int,
    kb: Seq<char>,
) -> bool {
    &&& forall|a: int, b: int| 0 <= a < b < at.len() ==> #[trigger] at[a] < #[trigger] at[b]
    &&& forall|r: int| #[trigger]
        shows_both(rows, header, r, rc, ka, cc, kb) <==> at.contains(r)
}

/// The number that a row has in a column, where it has one and a column is given.
pub open spec fn number_in(nums: Seq<Seq<Option<u64>>>, r: int, c: Option<usize>) -> Option<u64> {
    match c {
        Some(k) => if 0 <= r < nums.len() && k < nums[r].len() {
            nums[r][k as int]
        } else {
            None
        },
        None => None,
    }
}

/// The numbers that the rows among `at` have in a column.
pub open spec fn numbers_in(at: Seq<int>, nums: Seq<Seq<Option<u64>>>, c: Option<usize>) -> Seq<
    u64,
> {
    at.filter(|r: int| number_in(nums, r, c) is Some).map_values(
        |r: int| number_in(nums, r, c)->0,
    )
}

/// Whether a cell shows the aggregate of some rows: how many they are, or what was computed
/// of their numbers. A sum of no rows is zero, and any other aggregate of no numbers a blank.
pub open spec fn is_aggregate(
    cell: Json,
    agg: Seq<char>,
    at: Seq<int>,
    numbers: Seq<u64>,
    computed: Json,
    blank: Json,
) -> bool {
    &&& agg == "count"@ ==> cell == Json::Number(Num::Unsigned(at.len() as u64))
    &&& agg == "sum"@ && at.len() > 0 ==> cell == computed
    &&& agg == "sum"@ && at.len() == 0 ==> cell == Json::Number(Num::Unsigned(0))
    &&& agg != "count"@ && agg != "sum"@ && numbers.len() > 0 ==> cell == computed
    &&& agg != "count"@ && agg != "sum"@ && numbers.len() == 0 ==> cell == blank
}

/// Whether keys come in order, each once, and are just the texts that data rows show in a
/// column.
pub open spec fn are_keys_of(keys: Seq<Seq<char>>, rows: RowsView, header: bool, c: int) -> bool {
    &&& forall|i: int, j: int|
        0 <= i < j < keys.len() ==> comes_before(#[trigger] keys[i], #[trigger] keys[j])
    &&& forall|key: Seq<char>| #[trigger]
        keys.contains(key) <==> exists|r: int| shows(rows, header, r, c, key)
}

proof fn lemma_tally(
    marks: Seq<bool>,
    vals: Seq<Option<u64>>,
    nums: Seq<Seq<Option<u64>>>,
    v: Option<usize>,
    start: int,
    n: nat,
) -> (at: Seq<int>)
    requires
        n <= marks.len(),
        marks.len() == vals.len(),
        forall|k: int| 0 <= k < vals.len() ==> #[trigger] vals[k] == number_in(nums, start + k, v),
    ensures
        forall|a: int, b: int| 0 <= a < b < at.len() ==> #[trigger] at[a] < #[trigger] at[b],
        forall|a: int|
            0 <= a < at.len() ==> start <= #[trigger] at[a] < start + n && marks[at[a] - start],
        forall|k: int| 0 <= k < n && #[trigger] marks[k] ==> at.contains(start + k),
        at.len() == marked_count(marks, n),
        numbers_in(at, nums, v) == marked_numbers(marks, vals, n),
    decreases n,
{
    reveal(Seq::filter);
    let has = |r: int| number_in(nums, r, v) is Some;
    let get = |r: int| number_in(nums, r, v)->0;
    if n == 0 {
        let at = Seq::<int>::empty();
        assert(numbers_in(at, nums, v) =~= Seq::<u64>::empty());
        at
    } else {
        let before = lemma_tally(marks, vals, nums, v, start, (n - 1) as nat);
        let k = n - 1;
        if marks[k] {
            let at = before.push(start + k);
            assert(at.drop_last() =~= before);
            assert(at.last() == start + k);
            assert(vals[k] == number_in(nums, start + k, v));
            if has(start + k) {
                assert(at.filter(has) == before.filter(has).push(start + k));
                assert(at.filter(has).map_values(get) =~= before.filter(has).map_values(get).push(
                    get(start + k),
                ));
            } else {
                assert(at.filter(has) == before.filter(has));
            }
            assert forall|j: int| 0 <= j < n && #[trigger] marks[j] implies at.contains(
                start + j,
            ) by {
                if j < k {
                    assert(before.contains(start + j));
                    let a = choose|a: int| 0 <= a < before.len() && before[a] == start + j;
                    assert(at[a] == start + j);
                } else {
                    assert(at[before.len() as int] == start + j);
                }
            }
            assert forall|a: int| 0 <= a < at.len() implies start <= #[trigger] at[a] < start + n
                && marks[at[a] - start] by {
                if a < before.len() {
                    assert(at[a] == before[a]);
                }
            }
            at
        } else {
            before
        }
    }
}

/// The tally of the rows that show both texts: how many they are, and their numbers.
proof fn lemma_rows_with(
    rows: RowsView,
    nums: Seq<Seq<Option<u64>>>,
    header: bool,
    rc: int,
    ka: Seq<char>,
    cc: int,
    kb: Seq<char>,
    v: Option<usize>,
    marks: Seq<bool>,
) -> (at: Seq<int>)
    requires
        ({
            let start = data_start(header, rows);
            &&& marks.len() == rows.len() - start
            &&& forall|k: int|
                0 <= k < marks.len() ==> #[trigger] marks[k] == (column_texts(rows, start, rc)[k]
                    == ka && column_texts(rows, start, cc)[k] == kb)
        }),
    ensures
        are_rows_with(at, rows, header, rc, ka, cc, kb),
        tally(marks, readings(nums, data_start(header, rows), rows.len() as int, v)) == (
            at.len(),
            numbers_in(at, nums, v),
        ),
{
    let start = data_start(header, rows);
    let vals = readings(nums, start, rows.len() as int, v);
    let at = lemma_tally(marks, vals, nums, v, start, marks.len());
    assert forall|r: int| #[trigger] shows_both(rows, header, r, rc, ka, cc, kb) <==> at.contains(
        r,
    ) by {
        if shows_both(rows, header, r, rc, ka, cc, kb) {
            let k = r - start;
            assert(column_texts(rows, start, rc)[k] == ka);
            assert(column_texts(rows, start, cc)[k] == kb);
            assert(marks[k]);
            assert(at.contains(start + k));
        }
        if at.contains(r) {
            let a = choose|a: int| 0 <= a < at.len() && at[a] == r;
            assert(marks[at[a] - start]);
            let k = r - start;
            assert(column_texts(rows, start, rc)[k] == ka);
            assert(column_texts(rows, start, cc)[k] == kb);
        }
    }
    at
}

proof fn lemma_keys_of(rows: RowsView, header: bool, c: int)
    ensures
        ({
            let keys = column_texts(rows, data_start(header, rows), c);
            are_keys_of(sorted_keys(keys, keys.len()), rows, header, c)
        }),
{
    let start = data_start(header, rows);
    let keys = column_texts(rows, start, c);
    let sorted = sorted_keys(keys, keys.len());
    keys_are_ordered(keys, keys.len());
    assert(keys.take(keys.len() as int) =~= keys);
    assert forall|i: int, j: int| 0 <= i < j < sorted.len() implies comes_before(
        #[trigger] sorted[i],
        #[trigger] sorted[j],
    ) by {
        texts_come_by_their_letters(sorted[i], sorted[j]);
    }
    assert forall|key: Seq<char>| #[trigger] sorted.contains(key) <==> exists|r: int|
        shows(rows, header, r, c, key) by {
        if sorted.contains(key) {
            assert(keys.contains(key));
            let k = choose|k: int| 0 <= k < keys.len() && keys[k] == key;
            assert(shows(rows, header, start + k, c, key));
        }
        if exists|r: int| shows(rows, header, r, c, key) {
            let r = choose|r: int| shows(rows, header, r, c, key);
            assert(keys[r - start] == key);
            assert(keys.contains(key));
        }
    }
}

/// The rows and the columns of a pivot table are the keys of the sheet, and each cell is the
/// aggregate of the rows that show both of its keys: it shows how many they are, or what was
/// computed of their numbers; zero stands for a sum of no rows only, and a blank for any other
/// aggregate of no numbers.
pub proof fn pivots_aggregate_their_rows(
    p: Pivot,
    rows: RowsView,
    nums: Seq<Seq<Option<u64>>>,
    header: bool,
    rc: int,
    cc: int,
    v: Option<usize>,
    name: Seq<char>,
    agg: Seq<char>,
    computed: RowsView,
    i: int,
    j: int,
) -> (at: Seq<int>)
    requires
        is_pivot_of(p, rows, nums, header, rc, cc, v),
        0 <= i < p.rows@.len(),
        0 <= j < p.cols@.len(),
    ensures
        ({
            let out = pivot_rows(name, p, agg, computed);
            &&& are_keys_of(p.rows.deep_view(), rows, header, rc)
            &&& are_keys_of(p.cols.deep_view(), rows, header, cc)
            &&& out.len() == p.rows@.len() + 1
            &&& out[0].len() == p.cols@.len() + 1
            &&& out[0][0] == Json::Text(name)
            &&& out[0][j + 1] == Json::Text(p.cols@[j]@)
            &&& out[i + 1].len() == p.cols@.len() + 1
            &&& out[i + 1][0] == Json::Text(p.rows@[i]@)
            &&& are_rows_with(at, rows, header, rc, p.rows@[i]@, cc, p.cols@[j]@)
            &&& p.cells@[i]@[j].1@ == numbers_in(at, nums, v)
            &&& p.cells@[i]@[j].0 == at.len()
            &&& is_aggregate(
                out[i + 1][j + 1],
                agg,
                at,
                numbers_in(at, nums, v),
                if i < computed.len() && j < computed[i].len() {
                    computed[i][j]
                } else {
                    Json::Null
                },
                Json::Text(Seq::empty()),
            )
        }),
{
    let start = data_start(header, rows);
    let a = column_texts(rows, start, rc);
    let b = column_texts(rows, start, cc);
    let vals = readings(nums, start, rows.len() as int, v);
    let (ka, kb) = (p.rows@[i]@, p.cols@[j]@);
    lemma_keys_of(rows, header, rc);
    lemma_keys_of(rows, header, cc);
    let marks = has_keys(a, b, ka, kb);
    let at = lemma_rows_with(rows, nums, header, rc, ka, cc, kb, v, marks);
    pivots_are_full(p, rows, nums, header, rc, cc, v);
    assert(p.cells@[i]@.len() == p.cols@.len());
    assert(tallies_view(p.cells@[i]@)[j] == tally(marks, vals));
    assert(pivot_at(p, i, j) == tally(marks, vals));
    assert("count"@ != "sum"@) by {
        reveal_strlit("count");
        reveal_strlit("sum");
        assert("count"@.len() == 5 && "sum"@.len() == 3);
    }
    at
}

/// An aggregated sheet has a row for each key of a column, in order: the key, and the
/// aggregate of the rows that show it.
pub proof fn groups_aggregate_their_rows(
    rows: RowsView,
    nums: Seq<Seq<Option<u64>>>,
    header: bool,
    g: int,
    v: Option<usize>,
    agg: Seq<char>,
    computed: Seq<Json>,
    i: int,
) -> (at: Seq<int>)
    requires
        0 <= i < sheet_groups(rows, nums, header, g, v).len(),
    ensures
        ({
            let groups = sheet_groups(rows, nums, header, g, v);
            let out = aggregate_rows(rows, header, g, v, agg, groups, computed);
            &&& are_keys_of(Seq::new(groups.len(), |k: int| groups[k].0), rows, header, g)
            &&& out.len() == groups.len() + 1
            &&& out[0].len() == 2
            &&& out[i + 1].len() == 2
            &&& out[i + 1][0] == Json::Text(groups[i].0)
            &&& are_rows_with(at, rows, header, g, groups[i].0, g, groups[i].0)
            &&& groups[i].1 == (at.len(), numbers_in(at, nums, v))
            &&& at.len() > 0
            &&& is_aggregate(
                out[i + 1][1],
                agg,
                at,
                numbers_in(at, nums, v),
                if i < computed.len() {
                    computed[i]
                } else {
                    Json::Null
                },
                Json::Null,
            )
        }),
{
    let start = data_start(header, rows);
    let keys = column_texts(rows, start, g);
    let order = sorted_keys(keys, keys.len());
    let groups = sheet_groups(rows, nums, header, g, v);
    lemma_keys_of(rows, header, g);
    assert(Seq::new(groups.len(), |k: int| groups[k].0) =~= order);
    let key = order[i];
    let at = lemma_rows_with(rows, nums, header, g, key, g, key, v, has_key(keys, key));
    assert(order.contains(key));
    let r = choose|r: int| shows(rows, header, r, g, key);
    assert(shows_both(rows, header, r, g, key, g, key));
    assert(at.contains(r));
    assert("count"@ != "sum"@) by {
        reveal_strlit("count");
        reveal_strlit("sum");
        assert("count"@.len() == 5 && "sum"@.len() == 3);
    }
    at
}

// ── lists of values ─────────────────────────────────────────────────────────

/// Which texts are not blank.
pub open spec fn is_filled(t: Seq<char>) -> bool {
    trim(t).len() > 0
}

/// The items of `of` among the first `n` where the value is not blank.
pub open spec fn filled(of: Seq<Seq<char>>, vals: Seq<Seq<char>>, n: nat) -> Seq<Seq<char>>
    decreases n,
{
    if n == 0 || n > of.len() {
        Seq::empty()
    } else {
        let before = filled(of, vals, (n - 1) as nat);
        if n <= vals.len() && is_filled(vals[n - 1]) {
            before.push(of[n - 1])
        } else {
            before
        }
    }
}

/// The values among the first `n` that have a key and are not blank; each once where
/// they are to be distinct.
pub open spec fn group_values(
    keys: Seq<Seq<char>>,
    vals: Seq<Seq<char>>,
    key: Seq<char>,
    distinct: bool,
    n: nat,
) -> Seq<Seq<char>>
    decreases n,
{
    if n == 0 || n > keys.len() {
        Seq::empty()
    } else {
        let before = group_values(keys, vals, key, distinct, (n - 1) as nat);
        if keys[n - 1] == key && n <= vals.len() && is_filled(vals[n - 1]) && !(distinct
            && before.contains(vals[n - 1])) {
            before.push(vals[n - 1])
        } else {
            before
        }
    }
}

/// The rows of a sheet of lists: a header, then for each group that has values its key
/// and its values, joined.
pub open spec fn list_rows(
    rows: RowsView,
    header: bool,
    g: int,
    v: int,
    sep: Seq<char>,
    distinct: bool,
) -> RowsView {
    let start = data_start(header, rows);
    let keys = column_texts(rows, start, g);
    let vals = column_texts(rows, start, v);
    let kept = filled(keys, vals, keys.len());
    let order = sorted_keys(kept, kept.len());
    seq![
        seq![
            Json::Text(column_label(header, rows, g)),
            Json::Text(column_label(header, rows, v) + "_list"@),
        ],
    ] + Seq::new(
        order.len(),
        |i: int|
            seq![
                Json::Text(order[i]),
                Json::Text(
                    join(group_values(keys, vals, order[i], distinct, keys.len()), sep),
                ),
            ],
    )
}

fn filled_keys(keys: &Vec<String>, vals: &Vec<String>) -> (r: Vec<String>)
    ensures
        r.deep_view() == filled(keys.deep_view(), vals.deep_view(), keys@.len()),
{
    let mut out: Vec<String> = Vec::new();
    let mut i: usize = 0;
    assert(out.deep_view() =~= Seq::<Seq<char>>::empty());
    while i < keys.len()
        invariant
            i <= keys@.len(),
            out.deep_view() == filled(keys.deep_view(), vals.deep_view(), i as nat),
        decreases keys@.len() - i,
    {
        assert(keys.deep_view()[i as int] == keys@[i as int]@);
        assert(vals.deep_view().len() == vals@.len());
        if i < vals.len() {
            assert(vals.deep_view()[i as int] == vals@[i as int]@);
            if chars_of(trim_text(vals[i].as_str()).as_str()).len() > 0 {
                push_deep(&mut out, keys[i].clone());
            }
        }
        i = i + 1;
    }
    out
}

fn values_of_group(keys: &Vec<String>, vals: &Vec<String>, key: &str, distinct: bool) -> (r: Vec<
    String,
>)
    ensures
        r.deep_view() == group_values(
            keys.deep_view(),
            vals.deep_view(),
            key@,
            distinct,
            keys@.len(),
        ),
{
    let mut out: Vec<String> = Vec::new();
    let mut i: usize = 0;
    assert(out.deep_view() =~= Seq::<Seq<char>>::empty());
    while i < keys.len()
        invariant
            i <= keys@.len(),
            out.deep_view() == group_values(
                keys.deep_view(),
                vals.deep_view(),
                key@,
                distinct,
                i as nat,
            ),
        decreases keys@.len() - i,
    {
        assert(keys.deep_view()[i as int] == keys@[i as int]@);
        assert(vals.deep_view().len() == vals@.len());
        if i < vals.len() && same(keys[i].as_str(), key) {
            assert(vals.deep_view()[i as int] == vals@[i as int]@);
            if chars_of(trim_text(vals[i].as_str()).as_str()).len() > 0 {
                let again = distinct && crate::xml::one_of(&out, vals[i].as_str());
                if !again {
                    push_deep(&mut out, vals[i].clone());
                }
            }
        }
        i = i + 1;
    }
    out
}

/// The rows of a sheet of lists: the values of one column, joined for each value of
/// another.
pub fn op_sheet_group_concat(
    rows: &Rows,
    header: bool,
    g: usize,
    v: usize,
    sep: &str,
    distinct: bool,
) -> (r: Rows)
    ensures
        r.deep_view() == list_rows(
            rows.deep_view(),
            header,
            g as int,
            v as int,
            sep@,
            distinct,
        ),
{
    let start = first_data_row(header, rows);
    let keys = texts_of_column(rows, start, g);
    let vals = texts_of_column(rows, start, v);
    let kept = filled_keys(&keys, &vals);
    let order = ordered_keys(&kept);
    let ghost all = list_rows(rows.deep_view(), header, g as int, v as int, sep@, distinct);
    let mut out: Rows = Vec::new();
    let mut head: Vec<Value> = Vec::new();
    push_deep(&mut head, Value::Text(label_of_column(header, rows, g)));
    let list_label = concat2(label_of_column(header, rows, v).as_str(), "_list");
    push_deep(&mut head, Value::Text(list_label));
    assert(keys.deep_view().len() == keys@.len());
    assert(kept.deep_view().len() == kept@.len());
    assert(head.deep_view() =~= all[0]);
    push_deep(&mut out, head);
    assert(out.deep_view() =~= all.take(1));
    let mut i: usize = 0;
    while i < order.len()
        invariant
            i <= order@.len(),
            all.len() == order@.len() + 1,
            keys.deep_view().len() == keys@.len(),
            forall|k: int|
                0 <= k < order@.len() ==> #[trigger] all[k + 1] == seq![
                    Json::Text(order.deep_view()[k]),
                    Json::Text(
                        join(
                            group_values(
                                keys.deep_view(),
                                vals.deep_view(),
                                order.deep_view()[k],
                                distinct,
                                keys@.len(),
                            ),
                            sep@,
                        ),
                    ),
                ],
            out.deep_view() == all.take(i + 1),
        decreases order@.len() - i,
    {
        assert(order.deep_view()[i as int] == order@[i as int]@);
        let vs = values_of_group(&keys, &vals, order[i].as_str(), distinct);
        let mut row: Vec<Value> = Vec::new();
        push_deep(&mut row, text_value(order[i].as_str()));
        push_deep(&mut row, Value::Text(join_texts(&vs, sep)));
        assert(row.deep_view() =~= all[i + 1]);
        push_deep(&mut out, row);
        i = i + 1;
        assert(out.deep_view() =~= all.take(i + 1));
    }
    assert(all.take(i + 1) =~= all);
    out
}

// ── counts of values ────────────────────────────────────────────────────────

/// The display texts of the cells that are not blank in column `c` of the rows from
/// `start` up to `n`.
pub open spec fn shown_values(rows: RowsView, start: int, c: int, n: int) -> Seq<Seq<char>>
    decreases n - start,
{
    if n <= start || n > rows.len() {
        Seq::empty()
    } else {
        let before = shown_values(rows, start, c, n - 1);
        if is_blank(cell_at(rows[n - 1], c)) {
            before
        } else {
            before.push(cell_text(cell_at(rows[n - 1], c)))
        }
    }
}

/// The keys by which texts are counted.
pub open spec fn folded(texts: Seq<Seq<char>>, ignore_case: bool) -> Seq<Seq<char>> {
    Seq::new(texts.len(), |i: int| haystack(texts[i], ignore_case))
}

/// The distinct values with their counts, in the order in which they first come; each
/// is shown as it first comes.
pub open spec fn value_counts(texts: Seq<Seq<char>>, ignore_case: bool) -> Seq<(Seq<char>, u64)> {
    let keys = folded(texts, ignore_case);
    let order = first_seen(keys, keys.len());
    Seq::new(
        order.len(),
        |i: int|
            (
                texts[positions_of(keys, order[i], keys.len())[0]],
                positions_of(keys, order[i], keys.len()).len() as u64,
            ),
    )
}

/// Counts from the largest down.
pub open spec fn by_count(counts: Seq<(Seq<char>, u64)>) -> spec_fn(int, int) -> bool {
    |x: int, y: int| counts[y].1 < counts[x].1
}

/// The first `top` items, or all.
pub open spec fn cut<T>(s: Seq<T>, top: Option<u64>) -> Seq<T> {
    match top {
        Some(k) => if k < s.len() {
            s.take(k as int)
        } else {
            s
        },
        None => s,
    }
}

/// The values of a column with their counts, the most frequent first and values of
/// equal count in the order in which they first come.
pub open spec fn frequencies(texts: Seq<Seq<char>>, ignore_case: bool, top: Option<u64>) -> Seq<
    (Seq<char>, u64),
> {
    let counts = value_counts(texts, ignore_case);
    cut(in_order(counts, by_count(counts)), top)
}

fn shown_texts(rows: &Rows, start: usize, c: usize) -> (r: Vec<String>)
    requires
        start <= rows@.len(),
    ensures
        r.deep_view() == shown_values(
            rows.deep_view(),
            start as int,
            c as int,
            rows@.len() as int,
        ),
{
    let ghost rv = rows.deep_view();
    let mut out: Vec<String> = Vec::new();
    let mut i: usize = start;
    assert(out.deep_view() =~= Seq::<Seq<char>>::empty());
    while i < rows.len()
        invariant
            start <= i <= rows@.len(),
            rv == rows.deep_view(),
            out.deep_view() == shown_values(rv, start as int, c as int, i as int),
        decreases rows@.len() - i,
    {
        assert(rv[i as int] == rows@[i as int].deep_view());
        let cell = copy_cell(&rows[i], c);
        if !sheet_cell_blank(&cell) {
            push_deep(&mut out, cell_to_string(&cell));
        }
        i = i + 1;
    }
    out
}

proof fn lemma_first_position(keys: Seq<Seq<char>>, key: Seq<char>, n: nat)
    requires
        n <= keys.len(),
    ensures
        positions_of(keys, key, n).len() <= n,
        forall|k: int| #![trigger positions_of(keys, key, n)[k]]
            0 <= k < positions_of(keys, key, n).len() ==> 0 <= positions_of(keys, key, n)[k] < n,
        positions_of(keys, key, n).len() > 0 <==> keys.take(n as int).contains(key),
    decreases n,
{
    if n > 0 {
        lemma_first_position(keys, key, (n - 1) as nat);
        let all = keys.take(n as int);
        let less_one = keys.take(n - 1);
        assert(all =~= less_one.push(keys[n - 1]));
        if all.contains(key) {
            let m = choose|m: int| 0 <= m < all.len() && all[m] == key;
            if m < n - 1 {
                assert(less_one[m] == key);
            }
        }
        if less_one.contains(key) {
            let m = choose|m: int| 0 <= m < less_one.len() && less_one[m] == key;
            assert(all[m] == key);
        }
        if keys[n - 1] == key {
            assert(all[n - 1] == key);
        }
    }
}

pub open spec fn counts_view(cs: Seq<(String, u64)>) -> Seq<(Seq<char>, u64)> {
    Seq::new(cs.len(), |i: int| (cs[i].0@, cs[i].1))
}

/// The first of the texts with a key, and how many there are.
fn count_key(texts: &Vec<String>, keys: &Vec<String>, key: &str) -> (r: (String, u64))
    requires
        texts@.len() == keys@.len(),
        keys.deep_view().contains(key@),
    ensures
        ({
            let ps = positions_of(keys.deep_view(), key@, keys@.len());
            r.0@ == texts.deep_view()[ps[0]] && r.1 == ps.len()
        }),
{
    let ghost kv = keys.deep_view();
    let mut first: usize = 0;
    let mut count: u64 = 0;
    let mut i: usize = 0;
    while i < keys.len()
        invariant
            i <= keys@.len(),
            kv == keys.deep_view(),
            count == positions_of(kv, key@, i as nat).len(),
            count <= i,
            count > 0 ==> first == positions_of(kv, key@, i as nat)[0] && first < i,
        decreases keys@.len() - i,
    {
        assert(kv[i as int] == keys@[i as int]@);
        if same(keys[i].as_str(), key) {
            if count == 0 {
                first = i;
            }
            count = count + 1;
        }
        i = i + 1;
    }
    proof {
        lemma_first_position(kv, key@, kv.len());
        assert(kv.take(kv.len() as int) =~= kv);
    }
    assert(texts.deep_view()[first as int] == texts@[first as int]@);
    (texts[first].clone(), count)
}

fn count_values(texts: &Vec<String>, ignore_case: bool) -> (r: Vec<(String, u64)>)
    ensures
        counts_view(r@) == value_counts(texts.deep_view(), ignore_case),
{
    let ghost tv = texts.deep_view();
    let ghost kv = folded(tv, ignore_case);
    let mut keys: Vec<String> = Vec::new();
    let mut i: usize = 0;
    while i < texts.len()
        invariant
            i <= texts@.len(),
            tv == texts.deep_view(),
            kv == folded(tv, ignore_case),
            keys@.len() == i,
            keys.deep_view() == kv.take(i as int),
        decreases texts@.len() - i,
    {
        assert(tv[i as int] == texts@[i as int]@);
        push_deep(&mut keys, make_haystack(texts[i].as_str(), ignore_case));
        i = i + 1;
        assert(keys.deep_view() =~= kv.take(i as int));
    }
    assert(kv.take(i as int) =~= kv);
    assert(keys.deep_view().len() == keys@.len());
    let order = crate::columns::distinct_keys(&keys);
    let ghost all = value_counts(tv, ignore_case);
    let mut out: Vec<(String, u64)> = Vec::new();
    let mut k: usize = 0;
    proof {
        lemma_seen_are_keys(kv, kv.len());
    }
    while k < order.len()
        invariant
            k <= order@.len(),
            tv == texts.deep_view(),
            texts@.len() == keys@.len(),
            kv == keys.deep_view(),
            kv == folded(tv, ignore_case),
            kv.len() == keys@.len(),
            order.deep_view() == first_seen(kv, kv.len()),
            forall|t: Seq<char>| #[trigger] first_seen(kv, kv.len()).contains(t) ==> kv.contains(t),
            all == value_counts(tv, ignore_case),
            counts_view(out@) == all.take(k as int),
        decreases order@.len() - k,
    {
        assert(order.deep_view()[k as int] == order@[k as int]@);
        assert(first_seen(kv, kv.len()).contains(order@[k as int]@));
        let e = count_key(texts, &keys, order[k].as_str());
        let ghost was = out@;
        out.push(e);
        assert(counts_view(out@) =~= counts_view(was).push(all[k as int]));
        k = k + 1;
        assert(counts_view(out@) =~= all.take(k as int));
    }
    assert(all.take(k as int) =~= all);
    out
}

proof fn lemma_seen_are_keys(keys: Seq<Seq<char>>, n: nat)
    requires
        n <= keys.len(),
    ensures
        forall|t: Seq<char>| #[trigger] first_seen(keys, n).contains(t) ==> keys.contains(t),
    decreases n,
{
    if n > 0 {
        lemma_seen_are_keys(keys, (n - 1) as nat);
        let was = first_seen(keys, (n - 1) as nat);
        assert forall|t: Seq<char>| #[trigger] first_seen(keys, n).contains(t) implies keys.contains(
            t,
        ) by {
            let now = first_seen(keys, n);
            let m = choose|m: int| 0 <= m < now.len() && now[m] == t;
            if m < was.len() {
                assert(was[m] == t);
                assert(was.contains(t));
            } else {
                assert(keys[n - 1] == t);
            }
        }
    }
}

/// The values of a column with their counts, and how many cells are not blank.
pub fn op_sheet_freq(rows: &Rows, header: bool, c: usize, ignore_case: bool, top: Option<u64>) -> (r: (
    u64,
    Vec<(String, u64)>,
))
    ensures
        ({
            let rv = rows.deep_view();
            let texts = shown_values(rv, data_start(header, rv), c as int, rv.len() as int);
            &&& r.0 == texts.len()
            &&& counts_view(r.1@) == frequencies(texts, ignore_case, top)
        }),
{
    let start = first_data_row(header, rows);
    let texts = shown_texts(rows, start, c);
    let total: u64 = texts.len() as u64;
    assert(texts.deep_view().len() == texts@.len());
    assert(rows.deep_view().len() == rows@.len());
    let counts = count_values(&texts, ignore_case);
    let ghost cv = counts_view(counts@);
    let ghost lt = by_count(cv);
    let n: usize = counts.len();
    let more = |x: usize, y: usize| -> (b: bool)
        requires
            x < counts@.len(),
            y < counts@.len(),
        ensures
            b == (counts@[y as int].1 < counts@[x as int].1),
        { counts[y].1 < counts[x].1 };
    assert forall|x: usize, y: usize| x < n && y < n implies #[trigger] lt(x as int, y as int) == (
    counts@[y as int].1 < counts@[x as int].1) by {}
    let order = stable_order(n, &more, Ghost(lt));
    assert(is_weak_order(lt, n as int));
    let ghost all = in_order(cv, lt);
    let keep: usize = match top {
        Some(k) => if k < n as u64 {
            k as usize
        } else {
            n
        },
        None => n,
    };
    let mut out: Vec<(String, u64)> = Vec::new();
    let mut i: usize = 0;
    while i < keep
        invariant
            i <= keep <= n,
            n == counts@.len(),
            cv == counts_view(counts@),
            order@ == order_of(n as int, lt),
            crate::sorting::is_all_of(order@, 0, n as int),
            all == in_order(cv, lt),
            counts_view(out@) == all.take(i as int),
        decreases keep - i,
    {
        assert(0 <= order@[i as int] < n);
        let p: usize = order[i];
        assert(cv[p as int] == (counts@[p as int].0@, counts@[p as int].1));
        let ghost was = out@;
        out.push((counts[p].0.clone(), counts[p].1));
        assert(counts_view(out@) =~= counts_view(was).push(all[i as int]));
        i = i + 1;
        assert(counts_view(out@) =~= all.take(i as int));
    }
    assert(counts_view(out@) =~= cut(all, top));
    (total, out)
}

// ── lists and frequencies ───────────────────────────────────────────────────

/// The values of a group are the filled ones of the rows that show its key, from the top.
pub proof fn lists_have_the_values_of_the_key(
    keys: Seq<Seq<char>>,
    vals: Seq<Seq<char>>,
    key: Seq<char>,
    n: nat,
)
    requires
        n <= keys.len(),
        keys.len() == vals.len(),
    ensures
        group_values(keys, vals, key, false, n) == Seq::new(n, |r: int| r).filter(
            |r: int| keys[r] == key && trim(vals[r]).len() != 0,
        ).map_values(|r: int| vals[r]),
    decreases n,
{
    reveal(Seq::filter);
    let all = Seq::new(n, |r: int| r);
    let is = |r: int| keys[r] == key && trim(vals[r]).len() != 0;
    let get = |r: int| vals[r];
    if n > 0 {
        lists_have_the_values_of_the_key(keys, vals, key, (n - 1) as nat);
        assert(all.drop_last() =~= Seq::new((n - 1) as nat, |r: int| r));
        assert(all.last() == n - 1);
        if is(n - 1) {
            assert(all.filter(is).map_values(get) =~= all.drop_last().filter(is).map_values(
                get,
            ).push(get(n - 1)));
        }
    } else {
        assert(all.filter(is).map_values(get) =~= Seq::<Seq<char>>::empty());
    }
}

/// Where no value is to come twice, a group has each of its values once, where it first comes.
pub proof fn distinct_lists_have_each_value_once(
    keys: Seq<Seq<char>>,
    vals: Seq<Seq<char>>,
    key: Seq<char>,
    n: nat,
)
    requires
        n <= keys.len(),
        keys.len() == vals.len(),
    ensures
        ({
            let out = group_values(keys, vals, key, true, n);
            let each = group_values(keys, vals, key, false, n);
            &&& out.no_duplicates()
            &&& forall|t: Seq<char>| #[trigger] out.contains(t) <==> each.contains(t)
            &&& out == first_seen(each, each.len())
        }),
    decreases n,
{
    if n > 0 {
        distinct_lists_have_each_value_once(keys, vals, key, (n - 1) as nat);
        let was = group_values(keys, vals, key, true, (n - 1) as nat);
        let each_was = group_values(keys, vals, key, false, (n - 1) as nat);
        let out = group_values(keys, vals, key, true, n);
        let each = group_values(keys, vals, key, false, n);
        if each.len() > each_was.len() {
            lemma_seen_of_push(each_was, vals[n - 1]);
            assert forall|t: Seq<char>| #[trigger] out.contains(t) <==> each.contains(t) by {
                if out.contains(t) {
                    let k = choose|k: int| 0 <= k < out.len() && out[k] == t;
                    if k < was.len() {
                        assert(was[k] == t);
                        assert(was.contains(t));
                        let m = choose|m: int| 0 <= m < each_was.len() && each_was[m] == t;
                        assert(each[m] == t);
                    } else {
                        assert(each[each_was.len() as int] == t);
                    }
                }
                if each.contains(t) {
                    let k = choose|k: int| 0 <= k < each.len() && each[k] == t;
                    if k < each_was.len() {
                        assert(each_was[k] == t);
                        assert(each_was.contains(t));
                    }
                    assert(was.contains(t) || t == vals[n - 1]);
                    if was.contains(t) {
                        let m = choose|m: int| 0 <= m < was.len() && was[m] == t;
                        assert(out[m] == t);
                    } else {
                        assert(out[was.len() as int] == t);
                    }
                }
            }
        }
    }
}

proof fn lemma_seen_of_push(ks: Seq<Seq<char>>, k: Seq<char>)
    ensures
        first_seen(ks.push(k), ks.len() + 1) == if first_seen(ks, ks.len()).contains(k) {
            first_seen(ks, ks.len())
        } else {
            first_seen(ks, ks.len()).push(k)
        },
{
    lemma_seen_prefix(ks.push(k), ks, ks.len());
}

proof fn lemma_seen_prefix(a: Seq<Seq<char>>, b: Seq<Seq<char>>, n: nat)
    requires
        n <= a.len(),
        n <= b.len(),
        forall|i: int| 0 <= i < n ==> a[i] == b[i],
    ensures
        first_seen(a, n) == first_seen(b, n),
    decreases n,
{
    if n > 0 {
        lemma_seen_prefix(a, b, (n - 1) as nat);
    }
}

/// The texts of a column whose frequencies are told are those of its cells below the header
/// that are not empty.
pub proof fn shown_values_are_of_filled_cells(rows: RowsView, start: int, c: int, n: int)
    requires
        0 <= start <= n <= rows.len(),
    ensures
        shown_values(rows, start, c, n) == Seq::new((n - start) as nat, |i: int| start + i).filter(
            |r: int| !is_empty_in(rows, r, c),
        ).map_values(|r: int| shown_in(rows, r, c)),
    decreases n,
{
    reveal(Seq::filter);
    let all = Seq::new((n - start) as nat, |i: int| start + i);
    let is = |r: int| !is_empty_in(rows, r, c);
    let get = |r: int| shown_in(rows, r, c);
    if n > start {
        shown_values_are_of_filled_cells(rows, start, c, n - 1);
        assert(all.drop_last() =~= Seq::new((n - 1 - start) as nat, |i: int| start + i));
        assert(all.last() == n - 1);
        let r = n - 1;
        if 0 <= c < rows[r].len() {
            if let Json::Text(t) = rows[r][c] {
                lemma_trimmed_away(t);
            }
        }
        assert(is_blank(cell_at(rows[r], c)) == is_empty_in(rows, r, c));
        if is(r) {
            assert(all.filter(is).map_values(get) =~= all.drop_last().filter(is).map_values(
                get,
            ).push(get(r)));
        }
    } else {
        assert(all.filter(is).map_values(get) =~= Seq::<Seq<char>>::empty());
    }
}

/// How many texts are like one.
pub open spec fn how_often(texts: Seq<Seq<char>>, t: Seq<char>, ic: bool) -> nat {
    texts.filter(|x: Seq<char>| without_case(x, ic) == without_case(t, ic)).len()
}

proof fn lemma_how_often(texts: Seq<Seq<char>>, key: Seq<char>, ic: bool, n: nat)
    requires
        n <= texts.len(),
    ensures
        positions_of(folded(texts, ic), key, n).len() == texts.take(n as int).filter(
            |x: Seq<char>| without_case(x, ic) == key,
        ).len(),
    decreases n,
{
    reveal(Seq::filter);
    let part = texts.take(n as int);
    if n > 0 {
        lemma_how_often(texts, key, ic, (n - 1) as nat);
        assert(part.drop_last() =~= texts.take(n - 1));
        assert(part.last() == texts[n - 1]);
    }
}

proof fn lemma_seen_in_order(keys: Seq<Seq<char>>, n: nat, x: int, y: int) -> (p: int)
    requires
        n <= keys.len(),
        0 <= x < y < first_seen(keys, n).len(),
    ensures
        0 <= p < n,
        keys[p] == first_seen(keys, n)[x],
        forall|b: int| 0 <= b <= p ==> #[trigger] keys[b] != first_seen(keys, n)[y],
    decreases n,
{
    let was = first_seen(keys, (n - 1) as nat);
    let now = first_seen(keys, n);
    first_seen_is_distinct(keys, (n - 1) as nat);
    if y < was.len() {
        lemma_seen_in_order(keys, (n - 1) as nat, x, y)
    } else {
        let p = lemma_seen_at(keys, (n - 1) as nat, x);
        assert forall|b: int| 0 <= b <= p implies #[trigger] keys[b] != now[y] by {
            assert(was.contains(keys[b]));
        }
        p
    }
}

proof fn lemma_seen_at(keys: Seq<Seq<char>>, n: nat, x: int) -> (p: int)
    requires
        n <= keys.len(),
        0 <= x < first_seen(keys, n).len(),
    ensures
        0 <= p < n,
        keys[p] == first_seen(keys, n)[x],
    decreases n,
{
    if x < first_seen(keys, (n - 1) as nat).len() {
        lemma_seen_at(keys, (n - 1) as nat, x)
    } else {
        n - 1
    }
}

/// The frequencies of texts give each with how often it comes, spelled as where it first comes;
/// the most frequent stand first, and of two that come equally often the one that comes first.
/// No text is left out.
pub proof fn frequencies_count_each_text(texts: Seq<Seq<char>>, ic: bool, i: int, j: int, k: int)
    requires
        texts.len() <= usize::MAX,
        0 <= j < i < frequencies(texts, ic, None).len(),
        0 <= k < texts.len(),
    ensures
        ({
            let f = frequencies(texts, ic, None);
            &&& texts.contains(f[i].0)
            &&& f[i].1 == how_often(texts, f[i].0, ic)
            &&& f[j].1 >= f[i].1
            &&& f[j].1 == f[i].1 ==> exists|a: int|
                0 <= a < texts.len() && #[trigger] texts[a] == f[j].0 && forall|b: int|
                    0 <= b <= a ==> without_case(#[trigger] texts[b], ic) != without_case(
                        f[i].0,
                        ic,
                    )
            &&& exists|m: int|
                0 <= m < f.len() && without_case((#[trigger] f[m]).0, ic) == without_case(
                    texts[k],
                    ic,
                )
        }),
{
    let keys = folded(texts, ic);
    let order = first_seen(keys, keys.len());
    let counts = value_counts(texts, ic);
    let lt = by_count(counts);
    let f = frequencies(texts, ic, None);
    first_seen_is_distinct(keys, keys.len());
    let n = counts.len() as int;
    assert(is_weak_order(lt, n));
    lemma_stable_sort_exists(n, lt);
    let r = order_of(n, lt);
    assert(is_stable_sort(r, n, lt));
    let x = r[j] as int;
    let y = r[i] as int;
    assert(before(lt, r[j] as int, r[i] as int));
    lemma_positions(keys, order[x], keys.len());
    lemma_positions(keys, order[y], keys.len());
    let px = lemma_seen_at(keys, keys.len(), x);
    let py = lemma_seen_at(keys, keys.len(), y);
    let at_x = positions_of(keys, order[x], keys.len());
    let at_y = positions_of(keys, order[y], keys.len());
    assert(at_x.contains(px));
    assert(at_y.contains(py));
    let a = at_x[0];
    let b = at_y[0];
    assert(keys[a] == order[x]);
    assert(keys[b] == order[y]);
    assert(texts[a] == f[j].0);
    assert(texts[b] == f[i].0);
    lemma_how_often(texts, order[y], ic, texts.len());
    assert(texts.take(texts.len() as int) =~= texts);
    lemma_first_position(keys, order[y], keys.len());
    if f[j].1 == f[i].1 {
        assert(x < y);
        let p = lemma_seen_in_order(keys, keys.len(), x, y);
        assert(at_x.contains(p));
        let q = choose|q: int| 0 <= q < at_x.len() && at_x[q] == p;
        assert(a <= p) by {
            if q > 0 {
                assert(at_x[0] < at_x[q]);
            }
        }
        assert forall|c: int| 0 <= c <= a implies without_case(#[trigger] texts[c], ic)
            != without_case(f[i].0, ic) by {
            assert(keys[c] != order[y]);
        }
    }
    assert(order.contains(keys[k]));
    let z = choose|z: int| 0 <= z < order.len() && order[z] == keys[k];
    lemma_all_there(r, n, z);
    let m = choose|m: int| 0 <= m < r.len() && r[m] == z;
    lemma_positions(keys, order[z], keys.len());
    assert(positions_of(keys, order[z], keys.len()).contains(k));
    assert(keys[positions_of(keys, order[z], keys.len())[0]] == order[z]);
    assert(without_case(f[m].0, ic) == without_case(texts[k], ic));
}

/// Where a number of values is asked for, the most frequent ones are given.
pub proof fn frequencies_are_cut_behind(texts: Seq<Seq<char>>, ic: bool, top: u64)
    ensures
        ({
            let all = frequencies(texts, ic, None);
            let some = frequencies(texts, ic, Some(top));
            &&& top <= all.len() ==> some == all.take(top as int)
            &&& top > all.len() ==> some == all
        }),
{
    let all = frequencies(texts, ic, None);
    if top == all.len() {
        assert(all.take(top as int) =~= all);
    }
}

} // verus!
