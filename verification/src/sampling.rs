//! Parts of a sheet: its rows in chunks, the first or last ones, and a sample that a
//! seed decides.

use crate::columns::under_header;
use crate::deep::push_deep;
use crate::grid::{data_start, first_data_row, rows_between, Rows, RowsView};
use crate::ordering::{below_header, data_rows, goes_down, join_header};
use crate::sorting::{
    before, is_all_of, is_stable_sort, is_weak_order, lemma_all_there, lemma_stable_sort_exists,
    order_of, stable_order,
};
use crate::text::{concat3, decimal, push_decimal};
use crate::value::{as_u64, copy_values, field, Json, Value};
use vstd::prelude::*;

verus! {

// ── chunks ──────────────────────────────────────────────────────────────────

/// The chunks of rows from row `i` on: as many rows each as asked for, the last one
/// what is left.
pub open spec fn chunks_from(data: RowsView, size: nat, i: int) -> Seq<RowsView>
    decreases data.len() - i,
{
    if i < 0 || i >= data.len() || size == 0 {
        Seq::empty()
    } else if i + size >= data.len() {
        seq![data.skip(i)]
    } else {
        seq![data.subrange(i, i + size)] + chunks_from(data, size, i + size)
    }
}

/// The sheets that the data rows are split into, each under the header.
pub open spec fn chunked(rows: RowsView, header: bool, size: nat) -> Seq<RowsView> {
    let start = data_start(header, rows);
    let cs = chunks_from(data_rows(rows, start), size, 0);
    Seq::new(cs.len(), |i: int| under_header(rows, start, cs[i]))
}

/// Splits the data rows of a sheet into chunks.
pub fn op_sheet_chunk(rows: &Rows, header: bool, size: usize) -> (r: Vec<Rows>)
    requires
        size > 0,
    ensures
        r.deep_view() == chunked(rows.deep_view(), header, size as nat),
{
    let start = first_data_row(header, rows);
    let ghost rv = rows.deep_view();
    let ghost data = data_rows(rv, start as int);
    let ghost cs = chunks_from(data, size as nat, 0);
    let ghost all = chunked(rv, header, size as nat);
    assert(rv.len() == rows@.len());
    let total: usize = rows.len();
    let mut out: Vec<Rows> = Vec::new();
    let mut i: usize = start;
    let ghost mut done: int = 0;
    assert(cs.skip(0) =~= cs);
    while i < total
        invariant
            size > 0,
            start <= i <= total,
            total == rows@.len(),
            rv == rows.deep_view(),
            rv.len() == total,
            data == data_rows(rv, start as int),
            start == data_start(header, rv),
            cs == chunks_from(data, size as nat, 0),
            all == chunked(rv, header, size as nat),
            0 <= done <= cs.len(),
            cs.skip(done) == chunks_from(data, size as nat, i - start),
            out.deep_view() == all.take(done),
        decreases total - i,
    {
        let end: usize = if total - i <= size {
            total
        } else {
            i + size
        };
        let part = rows_between(rows, i, end);
        let ghost rest = chunks_from(data, size as nat, i - start);
        proof {
            assert(rest.len() > 0);
            assert(cs.skip(done)[0] == cs[done]);
            assert(part.deep_view() =~= rest[0]);
        }
        let sheet = join_header(rows, start, part);
        assert(sheet.deep_view() == all[done]);
        push_deep(&mut out, sheet);
        proof {
            assert(cs.skip(done + 1) =~= rest.skip(1));
            if end == total {
                assert(rest.skip(1) =~= chunks_from(data, size as nat, end - start));
            } else {
                assert(rest.skip(1) =~= chunks_from(data, size as nat, end - start));
            }
            done = done + 1;
        }
        i = end;
        assert(out.deep_view() =~= all.take(done));
    }
    assert(cs.skip(done).len() == 0);
    assert(all.take(done) =~= all);
    out
}

/// The rows of chunks, one chunk after the other.
pub open spec fn put_together(chunks: Seq<RowsView>, n: nat) -> RowsView
    decreases n,
{
    if n == 0 || n > chunks.len() {
        Seq::empty()
    } else {
        put_together(chunks, (n - 1) as nat) + chunks[n - 1]
    }
}

proof fn lemma_put_front(a: RowsView, rest: Seq<RowsView>, n: nat)
    requires
        n <= rest.len(),
    ensures
        put_together(seq![a] + rest, n + 1) == a + put_together(rest, n),
    decreases n,
{
    let all = seq![a] + rest;
    if n == 0 {
        assert(put_together(all, 0) =~= Seq::<Seq<Json>>::empty());
        assert(put_together(all, 1) =~= a + put_together(rest, 0));
    } else {
        lemma_put_front(a, rest, (n - 1) as nat);
        assert(all[n as int] == rest[n - 1]);
        assert(put_together(all, n + 1) =~= a + put_together(rest, n));
    }
}

/// The chunks of rows, put together, are the rows again.
pub proof fn chunks_lose_nothing(data: RowsView, size: nat, i: int)
    requires
        size > 0,
        0 <= i <= data.len(),
    ensures
        put_together(chunks_from(data, size, i), chunks_from(data, size, i).len()) == data.skip(i),
    decreases data.len() - i,
{
    let cs = chunks_from(data, size, i);
    if i >= data.len() {
        assert(data.skip(i) =~= put_together(cs, cs.len()));
    } else if i + size >= data.len() {
        assert(put_together(cs, 0) =~= Seq::<Seq<Json>>::empty());
        assert(put_together(cs, 1) =~= data.skip(i));
    } else {
        chunks_lose_nothing(data, size, i + size);
        let rest = chunks_from(data, size, i + size);
        lemma_put_front(data.subrange(i, i + size), rest, rest.len());
        assert(data.subrange(i, i + size) + data.skip(i + size) =~= data.skip(i));
    }
}

/// The path of chunk `n`.
pub open spec fn chunk_path(
    dir: Seq<char>,
    prefix: Seq<char>,
    n: nat,
    ext: Seq<char>,
) -> Seq<char> {
    dir + "/"@ + prefix + "-"@ + decimal(n) + "."@ + ext
}

pub fn path_of_chunk(dir: &str, prefix: &str, n: u64, ext: &str) -> (r: String)
    ensures
        r@ == chunk_path(dir@, prefix@, n as nat, ext@),
{
    let mut s = concat3(dir, "/", prefix);
    s.push_str("-");
    push_decimal(&mut s, n);
    s.push_str(".");
    s.push_str(ext);
    s
}

// ── first and last rows ─────────────────────────────────────────────────────

/// The first or the last `n` of rows, or all where there are fewer.
pub open spec fn end_rows(data: RowsView, n: nat, tail: bool) -> RowsView {
    if n >= data.len() {
        data
    } else if tail {
        data.skip(data.len() - n)
    } else {
        data.take(n as int)
    }
}

/// The first or the last data rows of a sheet, under the header; also how many.
pub fn op_sheet_head(rows: &Rows, header: bool, n: u64, tail: bool) -> (r: (Rows, usize))
    ensures
        ({
            let rv = rows.deep_view();
            let start = data_start(header, rv);
            let kept = end_rows(data_rows(rv, start), n as nat, tail);
            r.0.deep_view() == under_header(rv, start, kept) && r.1 == kept.len()
        }),
{
    let start = first_data_row(header, rows);
    let ghost rv = rows.deep_view();
    let ghost data = data_rows(rv, start as int);
    assert(rv.len() == rows@.len());
    let total: usize = rows.len() - start;
    let kept: usize = if n >= total as u64 {
        total
    } else {
        n as usize
    };
    let part = if tail {
        rows_between(rows, rows.len() - kept, rows.len())
    } else {
        rows_between(rows, start, start + kept)
    };
    assert(part.deep_view() =~= end_rows(data, n as nat, tail));
    (join_header(rows, start, part), kept)
}

// ── samples ─────────────────────────────────────────────────────────────────

/// The state after a step of the generator.
pub open spec fn xorshift(x: u64) -> u64 {
    let a = x ^ (x << 13);
    let b = a ^ (a >> 7);
    b ^ (b << 17)
}

/// A step of the generator.
pub fn xorshift64(state: &mut u64) -> (r: u64)
    ensures
        *final(state) == xorshift(*old(state)),
        r == xorshift(*old(state)),
{
    let mut x: u64 = *state;
    x = x ^ (x << 13);
    x = x ^ (x >> 7);
    x = x ^ (x << 17);
    *state = x;
    x
}

/// A state that is not zero never becomes zero.
pub proof fn generator_stays_alive(x: u64)
    requires
        x != 0,
    ensures
        xorshift(x) != 0,
{
    let a: u64 = x ^ (x << 13);
    let b: u64 = a ^ (a >> 7);
    assert(x != 0 ==> x ^ (x << 13) != 0) by (bit_vector);
    assert(a != 0 ==> a ^ (a >> 7) != 0) by (bit_vector);
    assert(b != 0 ==> b ^ (b << 17) != 0) by (bit_vector);
}

/// The state after `n` steps.
pub open spec fn state_after(seed: u64, n: nat) -> u64
    decreases n,
{
    if n == 0 {
        seed
    } else {
        xorshift(state_after(seed, (n - 1) as nat))
    }
}

/// The keys of `n` rows.
pub open spec fn sample_keys(seed: u64, n: nat) -> Seq<u64> {
    Seq::new(n, |i: int| state_after(seed, (i + 1) as nat))
}

/// Rows in the order of their keys; rows of equal keys in their own order.
pub open spec fn by_key(keys: Seq<u64>) -> spec_fn(int, int) -> bool {
    |x: int, y: int| keys[x] < keys[y]
}

/// Whether row `i` is one of the first `n` in an order.
pub open spec fn is_picked(order: Seq<usize>, n: nat, i: int) -> bool {
    exists|k: int| 0 <= k < n && k < order.len() && #[trigger] order[k] == i
}

/// The picked ones of the first `m` rows.
pub open spec fn picked_rows(data: RowsView, order: Seq<usize>, n: nat, m: nat) -> RowsView
    decreases m,
{
    if m == 0 || m > data.len() {
        Seq::empty()
    } else {
        let before = picked_rows(data, order, n, (m - 1) as nat);
        if is_picked(order, n, m - 1) {
            before.push(data[m - 1])
        } else {
            before
        }
    }
}

/// The sample of `n` rows that a seed decides: those with the smallest keys, in their
/// own order.
pub open spec fn sampled(data: RowsView, seed: u64, n: nat) -> RowsView {
    let keys = sample_keys(seed, data.len());
    picked_rows(data, order_of(data.len() as int, by_key(keys)), n, data.len())
}

/// A sample of the data rows of a sheet, under the header; also how many.
pub fn op_sheet_sample(rows: &Rows, header: bool, n: u64, seed: u64) -> (r: (Rows, usize))
    ensures
        ({
            let rv = rows.deep_view();
            let start = data_start(header, rv);
            let kept = sampled(data_rows(rv, start), seed, n as nat);
            r.0.deep_view() == under_header(rv, start, kept) && r.1 == kept.len()
        }),
{
    let start = first_data_row(header, rows);
    let ghost rv = rows.deep_view();
    let ghost data = data_rows(rv, start as int);
    assert(rv.len() == rows@.len());
    let total: usize = rows.len() - start;
    let mut keys: Vec<u64> = Vec::new();
    let mut state: u64 = seed;
    let mut i: usize = 0;
    while i < total
        invariant
            i <= total,
            state == state_after(seed, i as nat),
            keys@ == sample_keys(seed, i as nat),
        decreases total - i,
    {
        let x = xorshift64(&mut state);
        keys.push(x);
        i = i + 1;
        assert(keys@ =~= sample_keys(seed, i as nat));
    }
    let ghost lt = by_key(keys@);
    let smaller = |x: usize, y: usize| -> (b: bool)
        requires
            x < keys@.len(),
            y < keys@.len(),
        ensures
            b == (keys@[x as int] < keys@[y as int]),
        { keys[x] < keys[y] };
    let order = stable_order(total, &smaller, Ghost(lt));
    assert(is_weak_order(lt, total as int));
    let keep: usize = if n >= total as u64 {
        total
    } else {
        n as usize
    };
    let mut marks: Vec<bool> = Vec::new();
    let mut k: usize = 0;
    while k < total
        invariant
            k <= total,
            marks@.len() == k,
            forall|j: int| 0 <= j < k ==> !#[trigger] marks@[j],
        decreases total - k,
    {
        marks.push(false);
        k = k + 1;
    }
    k = 0;
    while k < keep
        invariant
            k <= keep <= total,
            marks@.len() == total,
            is_all_of(order@, 0, total as int),
            forall|j: int| 0 <= j < total ==> #[trigger] marks@[j] == is_picked(order@, k as nat, j),
        decreases keep - k,
    {
        let p: usize = order[k];
        assert(0 <= order@[k as int] < total);
        let ghost was = marks@;
        marks.set(p, true);
        assert forall|j: int| 0 <= j < total implies #[trigger] marks@[j] == is_picked(
            order@,
            (k + 1) as nat,
            j,
        ) by {
            if j == p {
                assert(order@[k as int] == j);
            } else {
                assert(marks@[j] == was[j]);
                if is_picked(order@, (k + 1) as nat, j) {
                    let a = choose|a: int|
                        0 <= a < k + 1 && a < order@.len() && #[trigger] order@[a] == j;
                    assert(a < k);
                }
                if is_picked(order@, k as nat, j) {
                    let a = choose|a: int|
                        0 <= a < k && a < order@.len() && #[trigger] order@[a] == j;
                    assert(a < k + 1);
                }
            }
        }
        k = k + 1;
    }
    let ghost nn = n as nat;
    assert forall|j: int| 0 <= j < total implies #[trigger] is_picked(order@, keep as nat, j)
        == is_picked(order@, nn, j) by {
        if is_picked(order@, nn, j) {
            let a = choose|a: int| 0 <= a < nn && a < order@.len() && #[trigger] order@[a] == j;
            assert(a < keep);
        }
        if is_picked(order@, keep as nat, j) {
            let a = choose|a: int| 0 <= a < keep && a < order@.len() && #[trigger] order@[a] == j;
            assert(a < nn);
        }
    }
    let mut out: Rows = Vec::new();
    let mut m: usize = 0;
    assert(out.deep_view() =~= Seq::<Seq<Json>>::empty());
    let whole: usize = rows.len();
    while m < total
        invariant
            m <= total,
            whole == rows@.len(),
            total == whole - start,
            marks@.len() == total,
            rv == rows.deep_view(),
            rv.len() == whole,
            data == data_rows(rv, start as int),
            forall|j: int| 0 <= j < total ==> #[trigger] marks@[j] == is_picked(order@, nn, j),
            out.deep_view() == picked_rows(data, order@, nn, m as nat),
        decreases total - m,
    {
        let at: usize = start + m;
        assert(data[m as int] == rows@[at as int].deep_view());
        if marks[m] {
            push_deep(&mut out, copy_values(&rows[at]));
        }
        m = m + 1;
    }
    let kept: usize = out.len();
    assert(out.deep_view().len() == kept);
    (join_header(rows, start, out), kept)
}

/// How many of the first `m` positions are among the first `n` of an order.
spec fn picks(order: Seq<usize>, n: nat, m: nat) -> nat
    decreases m,
{
    if m == 0 {
        0
    } else {
        picks(order, n, (m - 1) as nat) + if is_picked(order, n, m - 1) {
            1nat
        } else {
            0
        }
    }
}

proof fn lemma_one_more(order: Seq<usize>, n: nat, m: nat)
    requires
        order.no_duplicates(),
        n < order.len(),
    ensures
        picks(order, n + 1, m) == picks(order, n, m) + if order[n as int] < m {
            1nat
        } else {
            0
        },
    decreases m,
{
    if m > 0 {
        lemma_one_more(order, n, (m - 1) as nat);
        let i = m - 1;
        if order[n as int] == i {
            assert(is_picked(order, n + 1, i));
            if is_picked(order, n, i) {
                let a = choose|a: int| 0 <= a < n && a < order.len() && #[trigger] order[a] == i;
                assert(order[a] != order[n as int]);
            }
        } else {
            if is_picked(order, n, i) {
                let a = choose|a: int| 0 <= a < n && a < order.len() && #[trigger] order[a] == i;
                assert(a < n + 1 && order[a] == i);
            }
            if is_picked(order, n + 1, i) {
                let a = choose|a: int|
                    0 <= a < n + 1 && a < order.len() && #[trigger] order[a] == i;
                assert(a < n && order[a] == i);
            }
        }
    }
}

proof fn lemma_picks(order: Seq<usize>, n: nat, m: nat)
    requires
        is_all_of(order, 0, m as int),
        n <= m,
    ensures
        picks(order, n, m) == n,
    decreases n,
{
    if n == 0 {
        lemma_none_picked(order, m);
    } else {
        lemma_picks(order, (n - 1) as nat, m);
        lemma_one_more(order, (n - 1) as nat, m);
        assert(0 <= order[n - 1] < m);
    }
}

proof fn lemma_none_picked(order: Seq<usize>, m: nat)
    ensures
        picks(order, 0, m) == 0,
    decreases m,
{
    if m > 0 {
        lemma_none_picked(order, (m - 1) as nat);
        assert(!is_picked(order, 0, m - 1));
    }
}

proof fn lemma_picked_len(data: RowsView, order: Seq<usize>, n: nat, m: nat)
    requires
        m <= data.len(),
    ensures
        picked_rows(data, order, n, m).len() == picks(order, n, m),
    decreases m,
{
    if m > 0 {
        lemma_picked_len(data, order, n, (m - 1) as nat);
    }
}

proof fn lemma_all_picked(data: RowsView, order: Seq<usize>, n: nat, m: nat)
    requires
        m <= data.len(),
        forall|i: int| 0 <= i < data.len() ==> #[trigger] is_picked(order, n, i),
    ensures
        picked_rows(data, order, n, m) == data.take(m as int),
    decreases m,
{
    if m > 0 {
        lemma_all_picked(data, order, n, (m - 1) as nat);
        assert(is_picked(order, n, m - 1));
        assert(data.take(m as int) =~= data.take(m - 1).push(data[m - 1]));
    } else {
        assert(data.take(0) =~= Seq::<Seq<Json>>::empty());
    }
}

/// A sample has as many rows as asked for, and it is all rows where there are not more.
pub proof fn sample_has_its_size(data: RowsView, seed: u64, n: nat)
    requires
        data.len() <= usize::MAX,
    ensures
        n <= data.len() ==> sampled(data, seed, n).len() == n,
        n >= data.len() ==> sampled(data, seed, n) == data,
{
    let keys = sample_keys(seed, data.len());
    let lt = by_key(keys);
    let m = data.len();
    let order = order_of(m as int, lt);
    crate::sorting::lemma_stable_sort_exists(m as int, lt);
    assert(is_weak_order(lt, m as int));
    assert(is_stable_sort(order, m as int, lt));
    lemma_picked_len(data, order, n, m);
    if n <= m {
        lemma_picks(order, n, m);
    }
    if n >= m {
        assert forall|i: int| 0 <= i < m implies #[trigger] is_picked(order, n, i) by {
            crate::sorting::lemma_all_there(order, m as int, i);
            let a = choose|a: int| 0 <= a < order.len() && order[a] == i;
            assert(a < n && order[a] == i);
        }
        lemma_all_picked(data, order, n, m);
        assert(data.take(m as int) =~= data);
    }
}

/// The seed of a sample: the one that is asked for, but not zero, at which the generator
/// would stand still.
pub open spec fn seed_of(opts: Json) -> u64 {
    match as_u64(field(opts, "seed"@)) {
        Some(n) => if n == 0 {
            0x9E37_79B9_7F4A_7C15
        } else {
            n
        },
        None => 0x9E37_79B9_7F4A_7C15,
    }
}

pub fn read_seed(opts: &Value) -> (r: u64)
    ensures
        r == seed_of(opts.deep_view()),
        r != 0,
{
    match opts.u64_at("seed") {
        Some(n) => if n == 0 {
            0x9E37_79B9_7F4A_7C15
        } else {
            n
        },
        None => 0x9E37_79B9_7F4A_7C15,
    }
}

/// Each chunk has as many rows as are asked for but the last, which has what is left, and each
/// stands under the header.
pub proof fn chunks_have_their_size(rows: RowsView, header: bool, size: nat, k: int)
    requires
        size > 0,
        0 <= k < chunked(rows, header, size).len(),
    ensures
        ({
            let start = below_header(header, rows);
            let out = chunked(rows, header, size);
            let n = rows.len() - start;
            &&& start == 1 ==> out[k][0] == rows[0]
            &&& k * size < n
            &&& out[k].len() - start == if (k + 1) * size <= n {
                size as int
            } else {
                n - k * size
            }
            &&& forall|i: int|
                0 <= i < out[k].len() - start ==> #[trigger] out[k][start + i] == rows[start + k
                    * size + i]
            &&& k == out.len() - 1 ==> n <= (k + 1) * size
        }),
{
    let start = data_start(header, rows);
    let data = data_rows(rows, start);
    lemma_chunk(data, size, 0, k);
    let cs = chunks_from(data, size, 0);
    let out = chunked(rows, header, size);
    assert forall|i: int| 0 <= i < out[k].len() - start implies #[trigger] out[k][start + i]
        == rows[start + k * size + i] by {
        assert(cs[k][i] == data[0 + k * size + i]);
    }
}

proof fn lemma_chunk(data: RowsView, size: nat, i: int, k: int)
    requires
        size > 0,
        0 <= i,
        0 <= k < chunks_from(data, size, i).len(),
    ensures
        ({
            let cs = chunks_from(data, size, i);
            let at = i + k * size;
            &&& 0 <= at < data.len()
            &&& cs[k].len() == (if at + size <= data.len() {
                size as int
            } else {
                data.len() - at
            })
            &&& forall|j: int| 0 <= j < cs[k].len() ==> #[trigger] cs[k][j] == data[at + j]
            &&& k == cs.len() - 1 ==> data.len() <= at + size
            &&& (k + 1) * size == k * size + size
        }),
    decreases data.len() - i,
{
    assert((k + 1) * size == k * size + size) by (nonlinear_arith);
    let cs = chunks_from(data, size, i);
    if i + size >= data.len() {
        assert(k == 0);
        assert(k * size == 0) by (nonlinear_arith)
            requires
                k == 0,
        ;
    } else if k == 0 {
        assert(k * size == 0) by (nonlinear_arith)
            requires
                k == 0,
        ;
        assert(cs[0] == data.subrange(i, i + size));
        assert(chunks_from(data, size, i + size).len() > 0);
    } else {
        let rest = chunks_from(data, size, i + size);
        assert(cs[k] == rest[k - 1]);
        lemma_chunk(data, size, i + size, k - 1);
        assert(i + k * size == i + size + (k - 1) * size) by (nonlinear_arith);
    }
}

/// The head of rows is their first ones and the tail their last ones, in order and as many as
/// are asked for, as far as there are so many.
pub proof fn ends_are_the_first_or_the_last(data: RowsView, n: nat, tail: bool, i: int)
    requires
        0 <= i < end_rows(data, n, tail).len(),
    ensures
        end_rows(data, n, tail).len() == (if n <= data.len() {
            n
        } else {
            data.len()
        }),
        end_rows(data, n, tail)[i] == (if tail {
            data[data.len() - end_rows(data, n, tail).len() + i]
        } else {
            data[i]
        }),
{
}

proof fn lemma_picked(data: RowsView, order: Seq<usize>, n: nat, m: nat) -> (at: Seq<int>)
    requires
        m <= data.len(),
    ensures
        goes_down(at),
        at.len() == picked_rows(data, order, n, m).len(),
        forall|i: int|
            0 <= i < at.len() ==> 0 <= #[trigger] at[i] < m && is_picked(order, n, at[i])
                && picked_rows(data, order, n, m)[i] == data[at[i]],
        forall|r: int| 0 <= r < m && #[trigger] is_picked(order, n, r) ==> at.contains(r),
    decreases m,
{
    if m == 0 {
        Seq::empty()
    } else {
        let before = lemma_picked(data, order, n, (m - 1) as nat);
        let was = picked_rows(data, order, n, (m - 1) as nat);
        if is_picked(order, n, m - 1) {
            let at = before.push(m - 1);
            let now = was.push(data[m - 1]);
            assert forall|i: int| 0 <= i < at.len() implies 0 <= #[trigger] at[i] < m && is_picked(
                order,
                n,
                at[i],
            ) && now[i] == data[at[i]] by {
                if i < before.len() {
                    assert(at[i] == before[i]);
                }
            }
            assert forall|r: int|
                0 <= r < m && #[trigger] is_picked(order, n, r) implies at.contains(r) by {
                if r < m - 1 {
                    assert(before.contains(r));
                    let i = choose|i: int| 0 <= i < before.len() && before[i] == r;
                    assert(at[i] == r);
                } else {
                    assert(at[before.len() as int] == r);
                }
            }
            at
        } else {
            before
        }
    }
}

/// A sample keeps rows in their order, and no row that is left out has a smaller key than one
/// that is kept.
pub proof fn samples_take_the_smallest_keys(data: RowsView, seed: u64, n: nat) -> (at: Seq<int>)
    requires
        data.len() <= usize::MAX,
    ensures
        ({
            let keys = sample_keys(seed, data.len());
            let out = sampled(data, seed, n);
            &&& goes_down(at)
            &&& out.len() == at.len()
            &&& forall|i: int|
                0 <= i < at.len() ==> 0 <= #[trigger] at[i] < data.len() && out[i] == data[at[i]]
            &&& forall|i: int, r: int|
                #![trigger at[i], keys[r]]
                0 <= i < at.len() && 0 <= r < data.len() && !at.contains(r) ==> keys[at[i]]
                    <= keys[r]
        }),
{
    let keys = sample_keys(seed, data.len());
    let lt = by_key(keys);
    let len = data.len() as int;
    assert(is_weak_order(lt, len));
    lemma_stable_sort_exists(len, lt);
    let order = order_of(len, lt);
    assert(is_stable_sort(order, len, lt));
    let at = lemma_picked(data, order, n, data.len());
    assert forall|i: int, r: int|
        #![trigger at[i], keys[r]]
        0 <= i < at.len() && 0 <= r < data.len() && !at.contains(r) implies keys[at[i]]
        <= keys[r] by {
        assert(is_picked(order, n, at[i]));
        let a = choose|k: int| 0 <= k < n && k < order.len() && #[trigger] order[k] == at[i];
        lemma_all_there(order, len, r);
        let b = choose|k: int| 0 <= k < order.len() && order[k] == r;
        if b < n {
            assert(is_picked(order, n, r));
        }
        assert(a < b);
        assert(before(lt, order[a] as int, order[b] as int));
    }
    at
}

} // verus!
