//! What the pixels of an image add up to: histograms, extremes, frequent colors, and how
//! far two images differ.

use crate::color::{luma, luma601, make_web_color, web_color, Pixel};
use crate::deck::{add_count, in_64_bits, unsigned};
use crate::deep::push_deep;
use crate::groups::cut;
use crate::raster::{apart, Image, Picture};
use crate::sorting::{
    before, in_order, is_all_of, is_stable_sort, is_weak_order, lemma_stable_sort_exists, order_of,
    stable_order,
};
use crate::value::{add_member, object, Json, Number, Value};
use vstd::prelude::*;

verus! {

/// What is measured of a pixel: a channel, or its lightness.
#[derive(PartialEq, Eq, Structural, Clone, Copy)]
pub enum Measure {
    Red,
    Green,
    Blue,
    Alpha,
    Lightness,
}

pub open spec fn measured(p: Pixel, m: Measure) -> u8 {
    match m {
        Measure::Red => p.r,
        Measure::Green => p.g,
        Measure::Blue => p.b,
        Measure::Alpha => p.a,
        Measure::Lightness => luma(p.r, p.g, p.b),
    }
}

pub fn measure(p: Pixel, m: Measure) -> (v: u8)
    ensures
        v == measured(p, m),
{
    match m {
        Measure::Red => p.r,
        Measure::Green => p.g,
        Measure::Blue => p.b,
        Measure::Alpha => p.a,
        Measure::Lightness => luma601(p.r, p.g, p.b),
    }
}

// ── histograms ──────────────────────────────────────────────────────────────

/// How many of the first `n` pixels of a row have a value.
pub open spec fn row_count(row: Seq<Pixel>, m: Measure, v: int, n: nat) -> nat
    decreases n,
{
    if n == 0 || n > row.len() {
        0
    } else {
        row_count(row, m, v, (n - 1) as nat) + if measured(row[n - 1], m) == v {
            1nat
        } else {
            0
        }
    }
}

/// How many pixels of the first `n` rows have a value.
pub open spec fn value_count(p: Picture, m: Measure, v: int, n: nat) -> nat
    decreases n,
{
    if n == 0 || n > p.len() {
        0
    } else {
        value_count(p, m, v, (n - 1) as nat) + row_count(p[n - 1], m, v, p[n - 1].len())
    }
}

/// How many pixels have each of the 256 values.
pub open spec fn histogram(p: Picture, m: Measure) -> Seq<u64> {
    Seq::new(256, |v: int| in_64_bits(value_count(p, m, v, p.len())))
}

fn no_counts(n: usize) -> (r: Vec<u64>)
    ensures
        r@ == Seq::new(n as nat, |i: int| 0u64),
{
    let mut out: Vec<u64> = Vec::new();
    let mut i: usize = 0;
    while i < n
        invariant
            i <= n,
            out@ == Seq::new(i as nat, |i: int| 0u64),
        decreases n - i,
    {
        out.push(0);
        i = i + 1;
        assert(out@ =~= Seq::new(i as nat, |i: int| 0u64));
    }
    out
}

/// How many pixels of an image have each of the 256 values of a measure.
pub fn op_img_histogram(img: &Image, m: Measure) -> (r: Vec<u64>)
    requires
        img.wf(),
    ensures
        r@ == histogram(img@, m),
{
    let ghost p = img@;
    let mut out = no_counts(256);
    let mut y: usize = 0;
    while y < img.rows.len()
        invariant
            p == img@,
            y <= img.rows@.len(),
            out@.len() == 256,
            forall|v: int|
                0 <= v < 256 ==> #[trigger] out@[v] == in_64_bits(value_count(p, m, v, y as nat)),
        decreases img.rows@.len() - y,
    {
        let ghost row = p[y as int];
        let ghost base = out@;
        let mut x: usize = 0;
        assert(row == img.rows@[y as int]@);
        while x < img.rows[y].len()
            invariant
                y < img.rows@.len(),
                row == img.rows@[y as int]@,
                x <= row.len(),
                out@.len() == 256,
                forall|v: int|
                    0 <= v < 256 ==> #[trigger] out@[v] == in_64_bits(
                        value_count(p, m, v, y as nat) + row_count(row, m, v, x as nat),
                    ),
            decreases row.len() - x,
        {
            let v: usize = measure(img.rows[y][x], m) as usize;
            let ghost was = out@;
            let n = add_count(
                out[v],
                1,
                Ghost(
                    (value_count(p, m, v as int, y as nat) + row_count(
                        row,
                        m,
                        v as int,
                        x as nat,
                    )) as nat,
                ),
                Ghost(1),
            );
            out.set(v, n);
            x = x + 1;
            assert forall|u: int| 0 <= u < 256 implies #[trigger] out@[u] == in_64_bits(
                value_count(p, m, u, y as nat) + row_count(row, m, u, x as nat),
            ) by {
                if u != v {
                    assert(out@[u] == was[u]);
                }
            }
        }
        y = y + 1;
    }
    assert(out@ =~= histogram(p, m));
    out
}

/// The sum of the first `n` counts.
pub open spec fn total_below(hist: Seq<u64>, n: nat) -> nat
    decreases n,
{
    if n == 0 || n > hist.len() {
        0
    } else {
        total_below(hist, (n - 1) as nat) + hist[n - 1] as nat
    }
}

/// The sum of the counts from `n` on.
pub open spec fn total_from(hist: Seq<u64>, n: int) -> nat
    decreases hist.len() - n,
{
    if n < 0 || n >= hist.len() {
        0
    } else {
        hist[n] as nat + total_from(hist, n + 1)
    }
}

/// The first value, from `i` on, up to which there are more than `clip` pixels; 255 where
/// there is none before.
pub open spec fn dark_end(hist: Seq<u64>, clip: nat, i: int) -> int
    decreases 255 - i,
{
    if i < 0 || i >= 255 || total_below(hist, (i + 1) as nat) > clip {
        i
    } else {
        dark_end(hist, clip, i + 1)
    }
}

/// The last value, from `i` down, from which on there are more than `clip` pixels; 0
/// where there is none after.
pub open spec fn light_end(hist: Seq<u64>, clip: nat, i: int) -> int
    decreases i,
{
    if i <= 0 || total_from(hist, i) > clip {
        i
    } else {
        light_end(hist, clip, i - 1)
    }
}

/// The darkest and the lightest value of a histogram once `clip` pixels are cut off at
/// either end.
pub fn tone_bounds(hist: &Vec<u64>, clip: u64) -> (r: (usize, usize))
    requires
        hist@.len() == 256,
    ensures
        r.0 == dark_end(hist@, clip as nat, 0),
        r.1 == light_end(hist@, clip as nat, 255),
        r.0 <= 255,
        r.1 <= 255,
{
    let mut lo: usize = 0;
    let mut acc: u128 = 0;
    assert(total_below(hist@, 0) == 0);
    loop
        invariant_except_break
            hist@.len() == 256,
            lo <= 255,
            acc == total_below(hist@, lo as nat),
            acc <= lo * 0x1_0000_0000_0000_0000,
            dark_end(hist@, clip as nat, 0) == dark_end(hist@, clip as nat, lo as int),
        ensures
            lo <= 255,
            lo == dark_end(hist@, clip as nat, 0),
        decreases 255 - lo,
    {
        if lo >= 255 {
            break;
        }
        acc = acc + hist[lo] as u128;
        assert(acc == total_below(hist@, (lo + 1) as nat));
        if acc > clip as u128 {
            break;
        }
        lo = lo + 1;
    }
    let mut hi: usize = 255;
    let mut acc2: u128 = 0;
    assert(total_from(hist@, 256) == 0);
    loop
        invariant_except_break
            hist@.len() == 256,
            hi <= 255,
            acc2 == total_from(hist@, hi + 1),
            acc2 <= (255 - hi) * 0x1_0000_0000_0000_0000,
            light_end(hist@, clip as nat, 255) == light_end(hist@, clip as nat, hi as int),
        ensures
            hi <= 255,
            hi == light_end(hist@, clip as nat, 255),
        decreases hi,
    {
        if hi == 0 {
            break;
        }
        acc2 = acc2 + hist[hi] as u128;
        assert(acc2 == total_from(hist@, hi as int));
        if acc2 > clip as u128 {
            break;
        }
        hi = hi - 1;
    }
    (lo, hi)
}

/// The running totals of a histogram.
pub fn running_totals(hist: &Vec<u64>) -> (r: Vec<u128>)
    requires
        hist@.len() <= 256,
    ensures
        r@.len() == hist@.len(),
        forall|i: int| 0 <= i < r@.len() ==> #[trigger] r@[i] == total_below(hist@, (i + 1) as nat),
{
    let mut out: Vec<u128> = Vec::new();
    let mut acc: u128 = 0;
    let mut i: usize = 0;
    while i < hist.len()
        invariant
            i <= hist@.len() <= 256,
            out@.len() == i,
            acc == total_below(hist@, i as nat),
            acc <= i * 0x1_0000_0000_0000_0000,
            forall|k: int|
                0 <= k < i ==> #[trigger] out@[k] == total_below(hist@, (k + 1) as nat),
        decreases hist@.len() - i,
    {
        acc = acc + hist[i] as u128;
        i = i + 1;
        out.push(acc);
    }
    out
}

// ── extremes ────────────────────────────────────────────────────────────────

/// Whether a value is the smallest of an image, or 255 where it has no pixels.
pub open spec fn is_least(p: Picture, m: Measure, v: u8) -> bool {
    &&& forall|x: int, y: int|
        0 <= y < p.len() && 0 <= x < p[y].len() ==> v <= #[trigger] measured(p[y][x], m)
    &&& v == 255 || exists|x: int, y: int|
        0 <= y < p.len() && 0 <= x < p[y].len() && v == #[trigger] measured(p[y][x], m)
}

/// Whether a value is the largest of an image, or 0 where it has no pixels.
pub open spec fn is_greatest(p: Picture, m: Measure, v: u8) -> bool {
    &&& forall|x: int, y: int|
        0 <= y < p.len() && 0 <= x < p[y].len() ==> v >= #[trigger] measured(p[y][x], m)
    &&& v == 0 || exists|x: int, y: int|
        0 <= y < p.len() && 0 <= x < p[y].len() && v == #[trigger] measured(p[y][x], m)
}

/// The smallest and the largest value of a measure.
pub fn op_img_extrema(img: &Image, m: Measure) -> (r: (u8, u8))
    requires
        img.wf(),
    ensures
        is_least(img@, m, r.0),
        is_greatest(img@, m, r.1),
{
    let ghost p = img@;
    let mut lo: u8 = 255;
    let mut hi: u8 = 0;
    let mut y: usize = 0;
    while y < img.rows.len()
        invariant
            p == img@,
            y <= img.rows@.len(),
            forall|xx: int, yy: int|
                0 <= yy < y && 0 <= xx < p[yy].len() ==> lo <= #[trigger] measured(p[yy][xx], m) <= hi,
            lo == 255 || exists|xx: int, yy: int|
                0 <= yy < p.len() && 0 <= xx < p[yy].len() && lo == #[trigger] measured(
                    p[yy][xx],
                    m,
                ),
            hi == 0 || exists|xx: int, yy: int|
                0 <= yy < p.len() && 0 <= xx < p[yy].len() && hi == #[trigger] measured(
                    p[yy][xx],
                    m,
                ),
        decreases img.rows@.len() - y,
    {
        let mut x: usize = 0;
        assert(p[y as int] == img.rows@[y as int]@);
        while x < img.rows[y].len()
            invariant
                p == img@,
                y < img.rows@.len(),
                p[y as int] == img.rows@[y as int]@,
                x <= p[y as int].len(),
                forall|xx: int, yy: int|
                    0 <= yy < y && 0 <= xx < p[yy].len() ==> lo <= #[trigger] measured(
                        p[yy][xx],
                        m,
                    ) <= hi,
                forall|xx: int|
                    0 <= xx < x ==> lo <= #[trigger] measured(p[y as int][xx], m) <= hi,
                lo == 255 || exists|xx: int, yy: int|
                    0 <= yy < p.len() && 0 <= xx < p[yy].len() && lo == #[trigger] measured(
                        p[yy][xx],
                        m,
                    ),
                hi == 0 || exists|xx: int, yy: int|
                    0 <= yy < p.len() && 0 <= xx < p[yy].len() && hi == #[trigger] measured(
                        p[yy][xx],
                        m,
                    ),
            decreases p[y as int].len() - x,
        {
            let v = measure(img.rows[y][x], m);
            assert(v == measured(p[y as int][x as int], m));
            if v < lo {
                lo = v;
            }
            if v > hi {
                hi = v;
            }
            x = x + 1;
        }
        y = y + 1;
    }
    (lo, hi)
}

// ── frequent colors ─────────────────────────────────────────────────────────

/// The bucket of a color: sixteen steps for each channel.
pub open spec fn bucket(p: Pixel) -> int {
    (p.r / 16) * 256 + (p.g / 16) * 16 + p.b / 16
}

/// How many of the first `n` pixels of a row fall into a bucket.
pub open spec fn row_bucket(row: Seq<Pixel>, k: int, n: nat) -> nat
    decreases n,
{
    if n == 0 || n > row.len() {
        0
    } else {
        row_bucket(row, k, (n - 1) as nat) + if bucket(row[n - 1]) == k {
            1nat
        } else {
            0
        }
    }
}

/// How many pixels of the first `n` rows fall into a bucket.
pub open spec fn bucket_count(p: Picture, k: int, n: nat) -> nat
    decreases n,
{
    if n == 0 || n > p.len() {
        0
    } else {
        bucket_count(p, k, (n - 1) as nat) + row_bucket(p[n - 1], k, p[n - 1].len())
    }
}

/// The buckets below `n` that are not empty, with their counts.
pub open spec fn filled_buckets(counts: Seq<u64>, n: nat) -> Seq<(usize, u64)>
    decreases n,
{
    if n == 0 || n > counts.len() {
        Seq::empty()
    } else {
        let before = filled_buckets(counts, (n - 1) as nat);
        if counts[n - 1] > 0 {
            before.push(((n - 1) as usize, counts[n - 1]))
        } else {
            before
        }
    }
}

/// The larger count comes first.
pub open spec fn by_size(b: Seq<(usize, u64)>) -> spec_fn(int, int) -> bool {
    |x: int, y: int| b[y].1 < b[x].1
}

/// The counts of the buckets of an image.
pub open spec fn bucket_counts(p: Picture) -> Seq<u64> {
    Seq::new(4096, |k: int| in_64_bits(bucket_count(p, k, p.len())))
}

/// The color in the middle of a bucket, and how often it comes.
pub open spec fn color_entry(k: int, count: u64) -> Json {
    let r = (k / 256 * 16 + 8) as u8;
    let g = (k / 16 % 16 * 16 + 8) as u8;
    let b = (k % 16 * 16 + 8) as u8;
    Json::Object(
        seq![
            ("r"@, unsigned(r as u64)),
            ("g"@, unsigned(g as u64)),
            ("b"@, unsigned(b as u64)),
            ("hex"@, Json::Text(web_color(r, g, b))),
            ("count"@, unsigned(count)),
        ],
    )
}

/// The most frequent colors: the buckets from the largest down, buckets of one size in
/// their order.
pub open spec fn frequent_colors(p: Picture, n: u64) -> Seq<(usize, u64)> {
    let b = filled_buckets(bucket_counts(p), 4096);
    cut(in_order(b, by_size(b)), Some(n))
}

fn count_buckets(img: &Image) -> (r: Vec<u64>)
    requires
        img.wf(),
    ensures
        r@ == bucket_counts(img@),
{
    let ghost p = img@;
    let mut out = no_counts(4096);
    let mut y: usize = 0;
    while y < img.rows.len()
        invariant
            p == img@,
            y <= img.rows@.len(),
            out@.len() == 4096,
            forall|k: int|
                0 <= k < 4096 ==> #[trigger] out@[k] == in_64_bits(bucket_count(p, k, y as nat)),
        decreases img.rows@.len() - y,
    {
        let ghost row = p[y as int];
        let mut x: usize = 0;
        assert(row == img.rows@[y as int]@);
        while x < img.rows[y].len()
            invariant
                y < img.rows@.len(),
                row == img.rows@[y as int]@,
                x <= row.len(),
                out@.len() == 4096,
                forall|k: int|
                    0 <= k < 4096 ==> #[trigger] out@[k] == in_64_bits(
                        bucket_count(p, k, y as nat) + row_bucket(row, k, x as nat),
                    ),
            decreases row.len() - x,
        {
            let q = img.rows[y][x];
            let k: usize = (q.r / 16) as usize * 256 + (q.g / 16) as usize * 16 + (q.b / 16) as usize;
            assert(k == bucket(row[x as int]));
            let ghost was = out@;
            let n = add_count(
                out[k],
                1,
                Ghost(
                    (bucket_count(p, k as int, y as nat) + row_bucket(row, k as int, x as nat)) as nat,
                ),
                Ghost(1),
            );
            out.set(k, n);
            x = x + 1;
            assert forall|u: int| 0 <= u < 4096 implies #[trigger] out@[u] == in_64_bits(
                bucket_count(p, u, y as nat) + row_bucket(row, u, x as nat),
            ) by {
                if u != k {
                    assert(out@[u] == was[u]);
                }
            }
        }
        y = y + 1;
    }
    assert(out@ =~= bucket_counts(p));
    out
}

fn list_buckets(counts: &Vec<u64>) -> (r: Vec<(usize, u64)>)
    ensures
        r@ == filled_buckets(counts@, counts@.len()),
        forall|i: int| 0 <= i < r@.len() ==> (#[trigger] r@[i]).0 < counts@.len(),
{
    let mut out: Vec<(usize, u64)> = Vec::new();
    let mut i: usize = 0;
    while i < counts.len()
        invariant
            i <= counts@.len(),
            out@ == filled_buckets(counts@, i as nat),
            forall|k: int| 0 <= k < out@.len() ==> (#[trigger] out@[k]).0 < i,
        decreases counts@.len() - i,
    {
        if counts[i] > 0 {
            out.push((i, counts[i]));
        }
        i = i + 1;
    }
    out
}

fn make_color_entry(k: usize, count: u64) -> (r: Value)
    requires
        k < 4096,
    ensures
        r.deep_view() == color_entry(k as int, count),
{
    let r: u8 = (k / 256 * 16 + 8) as u8;
    let g: u8 = (k / 16 % 16 * 16 + 8) as u8;
    let b: u8 = (k % 16 * 16 + 8) as u8;
    let mut o: Vec<(String, Value)> = Vec::new();
    add_member(&mut o, "r", Value::Number(Number::Unsigned(r as u64)));
    add_member(&mut o, "g", Value::Number(Number::Unsigned(g as u64)));
    add_member(&mut o, "b", Value::Number(Number::Unsigned(b as u64)));
    add_member(&mut o, "hex", Value::Text(make_web_color(r, g, b)));
    add_member(&mut o, "count", Value::Number(Number::Unsigned(count)));
    assert(o.deep_view() =~= color_entry(k as int, count)->Object_0);
    object(o)
}

/// The most frequent colors of an image, with their counts.
pub fn op_img_dominant_colors(img: &Image, count: u64) -> (r: Vec<Value>)
    requires
        img.wf(),
    ensures
        ({
            let top = frequent_colors(img@, count);
            r.deep_view() == Seq::new(
                top.len(),
                |i: int| color_entry(top[i].0 as int, top[i].1),
            )
        }),
{
    let counts = count_buckets(img);
    let b = list_buckets(&counts);
    let ghost bv = b@;
    let ghost lt = by_size(bv);
    let n: usize = b.len();
    let more = |x: usize, y: usize| -> (r: bool)
        requires
            x < b@.len(),
            y < b@.len(),
        ensures
            r == (b@[y as int].1 < b@[x as int].1),
        { b[y].1 < b[x].1 };
    let order = stable_order(n, &more, Ghost(lt));
    assert(is_weak_order(lt, n as int));
    let ghost all = in_order(bv, lt);
    let ghost top = frequent_colors(img@, count);
    assert(top == cut(all, Some(count)));
    let keep: usize = if count < n as u64 {
        count as usize
    } else {
        n
    };
    let ghost want = Seq::new(top.len(), |i: int| color_entry(top[i].0 as int, top[i].1));
    let mut out: Vec<Value> = Vec::new();
    let mut i: usize = 0;
    assert(out.deep_view() =~= want.take(0));
    while i < keep
        invariant
            i <= keep <= n,
            n == b@.len(),
            bv == b@,
            forall|k: int| 0 <= k < b@.len() ==> (#[trigger] b@[k]).0 < 4096,
            order@ == order_of(n as int, lt),
            is_all_of(order@, 0, n as int),
            all == in_order(bv, lt),
            top == cut(all, Some(count)),
            keep == top.len(),
            want == Seq::new(top.len(), |i: int| color_entry(top[i].0 as int, top[i].1)),
            out.deep_view() == want.take(i as int),
        decreases keep - i,
    {
        assert(0 <= order@[i as int] < n);
        let k: usize = order[i];
        assert(top[i as int] == b@[k as int]);
        push_deep(&mut out, make_color_entry(b[k].0, b[k].1));
        i = i + 1;
        assert(out.deep_view() =~= want.take(i as int));
    }
    assert(want.take(i as int) =~= want);
    out
}

// ── differences ─────────────────────────────────────────────────────────────

/// How far two colors differ in each channel, as an opaque color.
pub open spec fn color_gap(p: Pixel, q: Pixel) -> Pixel {
    Pixel {
        r: apart(p.r, q.r) as u8,
        g: apart(p.g, q.g) as u8,
        b: apart(p.b, q.b) as u8,
        a: 255,
    }
}

/// The sum of the squares of the channels of a color.
pub open spec fn squares(d: Pixel) -> nat {
    (d.r * d.r + d.g * d.g + d.b * d.b) as nat
}

/// The largest channel of a color.
pub open spec fn largest(d: Pixel) -> u8 {
    if d.r >= d.g && d.r >= d.b {
        d.r
    } else if d.g >= d.b {
        d.g
    } else {
        d.b
    }
}

/// The sum of squares over the first `n` pixels of two rows.
pub open spec fn row_squares(a: Seq<Pixel>, b: Seq<Pixel>, n: nat) -> nat
    decreases n,
{
    if n == 0 || n > a.len() || n > b.len() {
        0
    } else {
        row_squares(a, b, (n - 1) as nat) + squares(color_gap(a[n - 1], b[n - 1]))
    }
}

/// The sum of squares over the first `n` rows.
pub open spec fn sum_of_squares(a: Picture, b: Picture, n: nat) -> nat
    decreases n,
{
    if n == 0 || n > a.len() || n > b.len() {
        0
    } else {
        sum_of_squares(a, b, (n - 1) as nat) + row_squares(a[n - 1], b[n - 1], a[n - 1].len())
    }
}

/// Whether `d` is the largest difference of a channel.
pub open spec fn is_largest_gap(a: Picture, b: Picture, d: u8) -> bool {
    &&& forall|x: int, y: int|
        0 <= y < a.len() && 0 <= x < a[y].len() ==> #[trigger] largest(color_gap(a[y][x], b[y][x]))
            <= d
    &&& d == 0 || exists|x: int, y: int|
        0 <= y < a.len() && 0 <= x < a[y].len() && #[trigger] largest(color_gap(a[y][x], b[y][x]))
            == d
}

/// The differences of two pictures.
pub open spec fn gap_picture(a: Picture, b: Picture) -> Picture {
    Seq::new(a.len(), |y: int| Seq::new(a[y].len(), |x: int| color_gap(a[y][x], b[y][x])))
}

/// What comparing two images gives: the sum of the squares of all differences, in 128
/// bits, the largest difference, and the image of differences.
pub struct Comparison {
    pub squares: u128,
    pub max_diff: u8,
    pub diff: Image,
}

fn gap(x: u8, y: u8) -> (r: u8)
    ensures
        r == apart(x, y),
{
    if x >= y {
        x - y
    } else {
        y - x
    }
}

fn square(x: u8) -> (r: u128)
    ensures
        r == x * x,
        r <= 65025,
{
    assert(x * x <= 65025) by (nonlinear_arith)
        requires
            x <= 255,
    ;
    (x as u32 * x as u32) as u128
}

/// Compares two images of one size.
pub fn op_img_compare(a: &Image, b: &Image) -> (r: Comparison)
    requires
        a.wf(),
        b.wf(),
        a.width == b.width,
        a@.len() == b@.len(),
    ensures
        r.squares == sum_of_squares(a@, b@, a@.len()),
        is_largest_gap(a@, b@, r.max_diff),
        r.diff.wf(),
        r.diff.width == a.width,
        r.diff@ == gap_picture(a@, b@),
{
    let ghost pa = a@;
    let ghost pb = b@;
    let ghost want = gap_picture(pa, pb);
    let w: usize = a.width as usize;
    let mut sum: u128 = 0;
    let mut most: u8 = 0;
    let mut rows: Vec<Vec<Pixel>> = Vec::new();
    let mut y: usize = 0;
    while y < a.rows.len()
        invariant
            a.wf(),
            b.wf(),
            a.width == b.width,
            w == a.width,
            pa == a@,
            pb == b@,
            pa.len() == pb.len(),
            want == gap_picture(pa, pb),
            y <= a.rows@.len(),
            rows@.len() == y,
            forall|k: int| 0 <= k < y ==> (#[trigger] rows@[k])@ == want[k],
            sum == sum_of_squares(pa, pb, y as nat),
            sum <= y * 837840745267200,
            forall|xx: int, yy: int|
                0 <= yy < y && 0 <= xx < pa[yy].len() ==> #[trigger] largest(
                    color_gap(pa[yy][xx], pb[yy][xx]),
                ) <= most,
            most == 0 || exists|xx: int, yy: int|
                0 <= yy < pa.len() && 0 <= xx < pa[yy].len() && #[trigger] largest(
                    color_gap(pa[yy][xx], pb[yy][xx]),
                ) == most,
        decreases a.rows@.len() - y,
    {
        assert(a.rows@[y as int]@.len() == a.width);
        assert(b.rows@[y as int]@.len() == b.width);
        let ghost ra = pa[y as int];
        let ghost rb = pb[y as int];
        assert(ra == a.rows@[y as int]@ && rb == b.rows@[y as int]@);
        let ghost base = sum;
        let mut row: Vec<Pixel> = Vec::new();
        let mut x: usize = 0;
        while x < w
            invariant
                x <= w,
                w <= 0xffff_ffff,
                y < a.rows@.len() <= 0xffff_ffff,
                y < b.rows@.len(),
                pa == a@,
                pb == b@,
                ra == a.rows@[y as int]@,
                rb == b.rows@[y as int]@,
                ra == pa[y as int],
                rb == pb[y as int],
                ra.len() == w,
                rb.len() == w,
                base <= y * 837840745267200,
                sum == base + row_squares(ra, rb, x as nat),
                sum <= base + x * 195075,
                row@.len() == x,
                forall|k: int| 0 <= k < x ==> #[trigger] row@[k] == color_gap(ra[k], rb[k]),
                forall|xx: int, yy: int|
                    0 <= yy < y && 0 <= xx < pa[yy].len() ==> #[trigger] largest(
                        color_gap(pa[yy][xx], pb[yy][xx]),
                    ) <= most,
                forall|xx: int|
                    0 <= xx < x ==> #[trigger] largest(
                        color_gap(pa[y as int][xx], pb[y as int][xx]),
                    ) <= most,
                most == 0 || exists|xx: int, yy: int|
                    0 <= yy < pa.len() && 0 <= xx < pa[yy].len() && #[trigger] largest(
                        color_gap(pa[yy][xx], pb[yy][xx]),
                    ) == most,
            decreases w - x,
        {
            let p = a.rows[y][x];
            let q = b.rows[y][x];
            let d = Pixel { r: gap(p.r, q.r), g: gap(p.g, q.g), b: gap(p.b, q.b), a: 255 };
            assert(d == color_gap(ra[x as int], rb[x as int]));
            sum = sum + square(d.r) + square(d.g) + square(d.b);
            let l = if d.r >= d.g && d.r >= d.b {
                d.r
            } else if d.g >= d.b {
                d.g
            } else {
                d.b
            };
            assert(l == largest(color_gap(pa[y as int][x as int], pb[y as int][x as int])));
            if l > most {
                most = l;
            }
            row.push(d);
            x = x + 1;
        }
        assert(row@ =~= want[y as int]);
        rows.push(row);
        y = y + 1;
        assert(sum == sum_of_squares(pa, pb, y as nat));
    }
    let diff = Image { width: a.width, rows };
    assert(diff@ =~= want);
    proof {
        assert forall|k: int| 0 <= k < diff.rows@.len() implies (#[trigger] diff.rows@[k])@.len()
            == diff.width by {
            assert(diff.rows@[k]@ == want[k]);
            assert(a.rows@[k]@.len() == a.width);
        }
    }
    Comparison { squares: sum, max_diff: most, diff }
}

/// The largest difference is zero just where the two pictures have the same colors.
pub proof fn no_gap_means_same_colors(a: Picture, b: Picture, d: u8)
    requires
        is_largest_gap(a, b, d),
    ensures
        d == 0 <==> forall|x: int, y: int|
            0 <= y < a.len() && 0 <= x < a[y].len() ==> #[trigger] same_color(a[y][x], b[y][x]),
{
    if d == 0 {
        assert forall|x: int, y: int| 0 <= y < a.len() && 0 <= x < a[y].len() implies #[trigger] same_color(
            a[y][x],
            b[y][x],
        ) by {
            assert(largest(color_gap(a[y][x], b[y][x])) <= 0);
        }
    } else {
        let (x, y) = choose|x: int, y: int|
            0 <= y < a.len() && 0 <= x < a[y].len() && #[trigger] largest(
                color_gap(a[y][x], b[y][x]),
            ) == d;
        assert(!same_color(a[y][x], b[y][x]));
    }
}

/// Whether two pixels have the same color, whatever their opacity.
pub open spec fn same_color(p: Pixel, q: Pixel) -> bool {
    p.r == q.r && p.g == q.g && p.b == q.b
}

// ── what is counted and compared ────────────────────────────────────────────

/// What is measured of a pixel is the channel that is named, or its lightness.
pub proof fn measures_are_what_they_name(p: Pixel)
    ensures
        measured(p, Measure::Red) == p.r,
        measured(p, Measure::Green) == p.g,
        measured(p, Measure::Blue) == p.b,
        measured(p, Measure::Alpha) == p.a,
        1000 * measured(p, Measure::Lightness) <= 299 * p.r + 587 * p.g + 114 * p.b < 1000 * (
        measured(p, Measure::Lightness) + 1),
{
}

/// All pixels of a picture, row by row.
pub open spec fn all_pixels(p: Picture) -> Seq<Pixel>
    decreases p.len(),
{
    if p.len() == 0 {
        Seq::empty()
    } else {
        all_pixels(p.drop_last()) + p.last()
    }
}

proof fn lemma_row_count(row: Seq<Pixel>, m: Measure, v: int, n: nat)
    requires
        n <= row.len(),
    ensures
        row_count(row, m, v, n) == row.take(n as int).filter(|q: Pixel| measured(q, m) == v).len(),
    decreases n,
{
    reveal(Seq::filter);
    if n > 0 {
        lemma_row_count(row, m, v, (n - 1) as nat);
        assert(row.take(n as int).drop_last() =~= row.take(n - 1));
    } else {
        assert(row.take(0).filter(|q: Pixel| measured(q, m) == v).len() == 0);
    }
}

proof fn lemma_value_count(p: Picture, m: Measure, v: int, n: nat)
    requires
        n <= p.len(),
    ensures
        value_count(p, m, v, n) == all_pixels(p.take(n as int)).filter(
            |q: Pixel| measured(q, m) == v,
        ).len(),
    decreases n,
{
    let is = |q: Pixel| measured(q, m) == v;
    let part = p.take(n as int);
    if n > 0 {
        lemma_value_count(p, m, v, (n - 1) as nat);
        lemma_row_count(p[n - 1], m, v, p[n - 1].len());
        assert(part.drop_last() =~= p.take(n - 1));
        assert(part.last() == p[n - 1]);
        assert(p[n - 1].take(p[n - 1].len() as int) =~= p[n - 1]);
        Seq::filter_distributes_over_add(all_pixels(p.take(n - 1)), p[n - 1], is);
    } else {
        reveal(Seq::filter);
        assert(all_pixels(part).filter(is).len() == 0);
    }
}

/// A histogram says of each value how many pixels have it.
pub proof fn histograms_count_the_pixels(p: Picture, m: Measure, v: int)
    requires
        0 <= v < 256,
        all_pixels(p).len() <= u64::MAX,
    ensures
        histogram(p, m).len() == 256,
        histogram(p, m)[v] == all_pixels(p).filter(|q: Pixel| measured(q, m) == v).len(),
{
    lemma_value_count(p, m, v, p.len());
    assert(p.take(p.len() as int) =~= p);
    all_pixels(p).lemma_filter_len(|q: Pixel| measured(q, m) == v);
}

proof fn lemma_dark_end(hist: Seq<u64>, clip: nat, i: int)
    requires
        0 <= i <= 255,
    ensures
        i <= dark_end(hist, clip, i) <= 255,
        forall|k: int|
            i <= k < dark_end(hist, clip, i) ==> total_below(hist, (#[trigger] (k + 1)) as nat)
                <= clip,
        dark_end(hist, clip, i) < 255 ==> total_below(hist, (dark_end(hist, clip, i) + 1) as nat)
            > clip,
    decreases 255 - i,
{
    if i < 255 && total_below(hist, (i + 1) as nat) <= clip {
        lemma_dark_end(hist, clip, i + 1);
    }
}

proof fn lemma_light_end(hist: Seq<u64>, clip: nat, i: int)
    requires
        0 <= i,
    ensures
        0 <= light_end(hist, clip, i) <= i,
        forall|k: int|
            light_end(hist, clip, i) < k <= i ==> #[trigger] total_from(hist, k) <= clip,
        light_end(hist, clip, i) > 0 ==> total_from(hist, light_end(hist, clip, i)) > clip,
    decreases i,
{
    if i > 0 && total_from(hist, i) <= clip {
        lemma_light_end(hist, clip, i - 1);
    }
}

/// The tones of a picture reach from the first value up to which more pixels are counted than
/// may be cut off, to the last one from which on more are.
pub proof fn tones_reach_between_what_is_cut_off(hist: Seq<u64>, clip: nat)
    ensures
        ({
            let lo = dark_end(hist, clip, 0);
            let hi = light_end(hist, clip, 255);
            &&& 0 <= lo <= 255 && 0 <= hi <= 255
            &&& lo < 255 ==> total_below(hist, (lo + 1) as nat) > clip
            &&& forall|k: int|
                0 <= k < lo ==> total_below(hist, (#[trigger] (k + 1)) as nat) <= clip
            &&& hi > 0 ==> total_from(hist, hi) > clip
            &&& forall|k: int| hi < k <= 255 ==> #[trigger] total_from(hist, k) <= clip
        }),
{
    lemma_dark_end(hist, clip, 0);
    lemma_light_end(hist, clip, 255);
}

/// Two pictures are compared channel by channel: the picture of their differences has in each
/// color how far they are apart, and the squares of these are added up.
pub proof fn comparing_takes_how_far_apart(a: Picture, b: Picture, x: int, y: int)
    requires
        0 <= y < a.len(),
        0 <= x < a[y].len(),
    ensures
        ({
            let d = gap_picture(a, b)[y][x];
            let (p, q) = (a[y][x], b[y][x]);
            let gap = |u: u8, v: u8|
                if u >= v {
                    u - v
                } else {
                    v - u
                };
            &&& gap_picture(a, b).len() == a.len() && gap_picture(a, b)[y].len() == a[y].len()
            &&& d.r == gap(p.r, q.r) && d.g == gap(p.g, q.g) && d.b == gap(p.b, q.b) && d.a == 255
            &&& squares(d) == d.r * d.r + d.g * d.g + d.b * d.b
            &&& largest(d) >= d.r && largest(d) >= d.g && largest(d) >= d.b
            &&& largest(d) == d.r || largest(d) == d.g || largest(d) == d.b
        }),
{
    assert(0 <= color_gap(a[y][x], b[y][x]).r * color_gap(a[y][x], b[y][x]).r) by (nonlinear_arith);
    assert(0 <= color_gap(a[y][x], b[y][x]).g * color_gap(a[y][x], b[y][x]).g) by (nonlinear_arith);
    assert(0 <= color_gap(a[y][x], b[y][x]).b * color_gap(a[y][x], b[y][x]).b) by (nonlinear_arith);
}

/// A frequent color stands for the colors whose channels are in the same sixteenths.
pub proof fn buckets_hold_near_colors(p: Pixel, q: Pixel)
    ensures
        0 <= bucket(p) < 4096,
        bucket(p) == bucket(q) <==> p.r / 16 == q.r / 16 && p.g / 16 == q.g / 16 && p.b / 16 == q.b
            / 16,
        bucket(p) / 256 == p.r / 16,
        bucket(p) / 16 % 16 == p.g / 16,
        bucket(p) % 16 == p.b / 16,
{
}

/// How many pixels of a picture lie in a bucket.
pub open spec fn how_many_in(p: Picture, k: int) -> nat {
    all_pixels(p).filter(|q: Pixel| bucket(q) == k).len()
}

proof fn lemma_row_bucket(row: Seq<Pixel>, k: int, n: nat)
    requires
        n <= row.len(),
    ensures
        row_bucket(row, k, n) == row.take(n as int).filter(|q: Pixel| bucket(q) == k).len(),
    decreases n,
{
    reveal(Seq::filter);
    if n > 0 {
        lemma_row_bucket(row, k, (n - 1) as nat);
        assert(row.take(n as int).drop_last() =~= row.take(n - 1));
    } else {
        assert(row.take(0).filter(|q: Pixel| bucket(q) == k).len() == 0);
    }
}

proof fn lemma_bucket_count(p: Picture, k: int, n: nat)
    requires
        n <= p.len(),
    ensures
        bucket_count(p, k, n) == how_many_in(p.take(n as int), k),
    decreases n,
{
    let is = |q: Pixel| bucket(q) == k;
    let part = p.take(n as int);
    if n > 0 {
        lemma_bucket_count(p, k, (n - 1) as nat);
        lemma_row_bucket(p[n - 1], k, p[n - 1].len());
        assert(part.drop_last() =~= p.take(n - 1));
        assert(part.last() == p[n - 1]);
        assert(p[n - 1].take(p[n - 1].len() as int) =~= p[n - 1]);
        Seq::filter_distributes_over_add(all_pixels(p.take(n - 1)), p[n - 1], is);
    } else {
        reveal(Seq::filter);
        assert(all_pixels(part).filter(is).len() == 0);
    }
}

proof fn lemma_filled(counts: Seq<u64>, n: nat, i: int, j: int)
    requires
        n <= counts.len() <= 4096,
    ensures
        filled_buckets(counts, n).len() <= n,
        0 <= i < filled_buckets(counts, n).len() ==> ({
            let e = filled_buckets(counts, n)[i];
            e.0 < n && e.1 == counts[e.0 as int] && e.1 > 0
        }),
        0 <= j < i < filled_buckets(counts, n).len() ==> filled_buckets(counts, n)[j].0
            < filled_buckets(counts, n)[i].0,
    decreases n,
{
    if n > 0 {
        lemma_filled(counts, (n - 1) as nat, i, j);
        lemma_filled(counts, (n - 1) as nat, j, 0);
    }
}

/// The frequent colors of a picture come with how many pixels are near them, the most frequent
/// first; of two that are equally frequent the darker comes first. No more are given than are
/// asked for, and none that no pixel is near to.
pub proof fn frequent_colors_come_first(p: Picture, n: u64, i: int, j: int)
    requires
        all_pixels(p).len() <= u64::MAX,
        0 <= j < i < frequent_colors(p, n).len(),
    ensures
        ({
            let f = frequent_colors(p, n);
            &&& f.len() <= n
            &&& f[i].1 > 0
            &&& f[i].1 == how_many_in(p, f[i].0 as int)
            &&& f[j].1 > f[i].1 || (f[j].1 == f[i].1 && f[j].0 < f[i].0)
        }),
{
    let counts = bucket_counts(p);
    let b = filled_buckets(counts, 4096);
    let lt = by_size(b);
    let f = frequent_colors(p, n);
    lemma_filled(counts, 4096, 0, 0);
    let m = b.len() as int;
    assert(is_weak_order(lt, m));
    lemma_stable_sort_exists(m, lt);
    let r = order_of(m, lt);
    assert(is_stable_sort(r, m, lt));
    assert(before(lt, r[j] as int, r[i] as int));
    lemma_filled(counts, 4096, r[i] as int, r[j] as int);
    lemma_filled(counts, 4096, r[j] as int, r[i] as int);
    let k = f[i].0 as int;
    lemma_bucket_count(p, k, p.len());
    assert(p.take(p.len() as int) =~= p);
    all_pixels(p).lemma_filter_len(|q: Pixel| bucket(q) == k);
}

} // verus!
