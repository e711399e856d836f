//! Flows between nodes, and the grid that several charts are set in.

use crate::color::{color_of, parse_color, white, Pixel};
use crate::deep::push_deep;
use crate::figures::{number_at, read_number};
use crate::chart::opt_num;
use crate::text::{copy_text, same};
use crate::value::{
    as_array, as_text, as_u64, field, lemma_object_view, member_pos, Json, Num, Number, Value,
};
use vstd::prelude::*;

verus! {

// ── flows ───────────────────────────────────────────────────────────────────

/// A flow from one node to another.
pub struct Link {
    pub source: u64,
    pub target: u64,
    pub value: Option<Number>,
}

pub struct LinkView {
    pub source: u64,
    pub target: u64,
    pub value: Option<Num>,
}

impl DeepView for Link {
    type V = LinkView;

    open spec fn deep_view(&self) -> LinkView {
        LinkView { source: self.source, target: self.target, value: opt_num(self.value) }
    }
}

/// The node that stands under a key; the first one where none does.
pub open spec fn node_at(link: Json, key: Seq<char>) -> u64 {
    match as_u64(field(link, key)) {
        Some(n) => n,
        None => 0,
    }
}

pub open spec fn link_of(link: Json) -> LinkView {
    LinkView {
        source: node_at(link, "source"@),
        target: node_at(link, "target"@),
        value: number_at(link, "value"@),
    }
}

/// The flows of a chart.
pub open spec fn links_of(opts: Json) -> Seq<LinkView> {
    match as_array(field(opts, "links"@)) {
        Some(a) => Seq::new(a.len(), |i: int| link_of(a[i])),
        None => Seq::empty(),
    }
}

fn read_node(link: &Value, key: &str) -> (n: u64)
    ensures
        n == node_at(link.deep_view(), key@),
{
    match link.u64_at(key) {
        Some(n) => n,
        None => 0,
    }
}

pub fn read_links(opts: &Value) -> (r: Vec<Link>)
    ensures
        r.deep_view() == links_of(opts.deep_view()),
{
    let ghost all = links_of(opts.deep_view());
    let mut out: Vec<Link> = Vec::new();
    assert(out.deep_view() =~= all.take(0));
    match opts.array_at("links") {
        Some(a) => {
            let total: usize = a.len();
            assert(a.deep_view().len() == total);
            let mut i: usize = 0;
            while i < total
                invariant
                    i <= total,
                    total == a@.len(),
                    a.deep_view().len() == total,
                    all == Seq::new(total as nat, |i: int| link_of(a.deep_view()[i])),
                    out.deep_view() == all.take(i as int),
                decreases total - i,
            {
                assert(a.deep_view()[i as int] == a@[i as int].deep_view());
                let link = Link {
                    source: read_node(&a[i], "source"),
                    target: read_node(&a[i], "target"),
                    value: read_number(&a[i], "value"),
                };
                assert(link.deep_view() == all[i as int]);
                push_deep(&mut out, link);
                i = i + 1;
                assert(out.deep_view() =~= all.take(i as int));
            }
            assert(all.take(i as int) =~= all);
        },
        None => {
            assert(all.take(0) =~= all);
        },
    }
    out
}

/// The names of the nodes of a chart.
pub open spec fn node_names(opts: Json) -> Seq<Seq<char>> {
    match as_array(field(opts, "nodes"@)) {
        Some(a) => Seq::new(
            a.len(),
            |i: int|
                match as_text(field(a[i], "name"@)) {
                    Some(s) => s,
                    None => ""@,
                },
        ),
        None => Seq::empty(),
    }
}

pub fn read_node_names(opts: &Value) -> (r: Vec<String>)
    ensures
        r.deep_view() == node_names(opts.deep_view()),
{
    let ghost all = node_names(opts.deep_view());
    let mut out: Vec<String> = Vec::new();
    assert(out.deep_view() =~= all.take(0));
    match opts.array_at("nodes") {
        Some(a) => {
            let total: usize = a.len();
            assert(a.deep_view().len() == total);
            let mut i: usize = 0;
            while i < total
                invariant
                    i <= total,
                    total == a@.len(),
                    a.deep_view().len() == total,
                    all == Seq::new(
                        total as nat,
                        |i: int|
                            match as_text(field(a.deep_view()[i], "name"@)) {
                                Some(s) => s,
                                None => ""@,
                            },
                    ),
                    out.deep_view() == all.take(i as int),
                decreases total - i,
            {
                assert(a.deep_view()[i as int] == a@[i as int].deep_view());
                let name = match a[i].text_at("name") {
                    Some(s) => copy_text(s),
                    None => copy_text(""),
                };
                assert(name@ == all[i as int]);
                push_deep(&mut out, name);
                i = i + 1;
                assert(out.deep_view() =~= all.take(i as int));
            }
            assert(all.take(i as int) =~= all);
        },
        None => {
            assert(all.take(0) =~= all);
        },
    }
    out
}

/// The end of a flow: where it starts, or where it leads.
pub open spec fn end_of(l: LinkView, sources: bool) -> u64 {
    if sources {
        l.source
    } else {
        l.target
    }
}

/// Whether numbers rise.
pub open spec fn rises(s: Seq<u64>) -> bool {
    forall|i: int, j: int| 0 <= i < j < s.len() ==> #[trigger] s[i] < #[trigger] s[j]
}

/// Whether `s` holds, rising, the ends of the first `n` flows and nothing else.
pub open spec fn are_ends(s: Seq<u64>, links: Seq<LinkView>, sources: bool, n: int) -> bool {
    &&& rises(s)
    &&& forall|k: int|
        0 <= k < n ==> s.contains(end_of(#[trigger] links[k], sources))
    &&& forall|i: int| 0 <= i < s.len() ==> is_end(#[trigger] s[i], links, sources, n)
}

/// Whether a node is an end of one of the first `n` flows.
pub open spec fn is_end(id: u64, links: Seq<LinkView>, sources: bool, n: int) -> bool {
    exists|k: int| 0 <= k < n && end_of(#[trigger] links[k], sources) == id
}

/// The nodes on one side of the flows, each once, in rising order.
pub fn side_nodes(links: &Vec<Link>, sources: bool) -> (r: Vec<u64>)
    ensures
        are_ends(r@, links.deep_view(), sources, links@.len() as int),
{
    let ghost lv = links.deep_view();
    let total: usize = links.len();
    assert(lv.len() == total);
    let mut out: Vec<u64> = Vec::new();
    let mut i: usize = 0;
    while i < total
        invariant
            i <= total,
            total == links@.len(),
            lv == links.deep_view(),
            lv.len() == total,
            are_ends(out@, lv, sources, i as int),
        decreases total - i,
    {
        assert(lv[i as int] == links@[i as int].deep_view());
        let id: u64 = if sources {
            links[i].source
        } else {
            links[i].target
        };
        let mut at: usize = 0;
        while at < out.len() && out[at] < id
            invariant
                at <= out@.len(),
                forall|j: int| 0 <= j < at ==> #[trigger] out@[j] < id,
            decreases out@.len() - at,
        {
            at = at + 1;
        }
        let ghost was = out@;
        if at < out.len() && out[at] == id {
            assert(was.contains(id));
        } else {
            out.insert(at, id);
            assert(out@ == was.insert(at as int, id));
            assert(out@[at as int] == id);
            assert forall|x: int, y: int| 0 <= x < y < out@.len() implies #[trigger] out@[x]
                < #[trigger] out@[y] by {
                if at < was.len() {
                    assert(id < was[at as int]);
                }
                if x < at && y > at {
                    assert(was[x] < id);
                    assert(was[x] < was[y - 1]);
                } else if x == at {
                    assert(y - 1 >= at);
                    assert(id < was[at as int]);
                    if y - 1 > at {
                        assert(was[at as int] < was[y - 1]);
                    }
                } else if x > at {
                    assert(was[x - 1] < was[y - 1]);
                } else if y < at {
                    assert(was[x] < was[y]);
                }
            }
            assert forall|k: int| 0 <= k < i implies out@.contains(
                end_of(#[trigger] lv[k], sources),
            ) by {
                let e = end_of(lv[k], sources);
                let p = choose|p: int| 0 <= p < was.len() && was[p] == e;
                if p < at {
                    assert(out@[p] == e);
                } else {
                    assert(out@[p + 1] == e);
                }
            }
        }
        i = i + 1;
        assert forall|k: int| 0 <= k < i implies out@.contains(end_of(#[trigger] lv[k], sources)) by {
            if k == i - 1 {
                assert(end_of(lv[k], sources) == id);
                assert(out@[at as int] == id);
            }
        }
        assert forall|p: int| 0 <= p < out@.len() implies is_end(
            #[trigger] out@[p],
            lv,
            sources,
            i as int,
        ) by {
            if out@[p] == id {
                assert(end_of(lv[i - 1], sources) == id);
            } else {
                assert(was.contains(out@[p])) by {
                    if out@.len() == was.len() {
                        assert(out@ =~= was);
                    } else if p < at {
                        assert(was[p] == out@[p]);
                    } else {
                        assert(was[p - 1] == out@[p]);
                    }
                }
                let w = choose|w: int| 0 <= w < was.len() && was[w] == out@[p];
                assert(is_end(was[w], lv, sources, i - 1));
            }
        }
    }
    out
}

/// The places of the flows, below `n`, that have a node as their end.
pub open spec fn links_at(links: Seq<LinkView>, id: u64, sources: bool, n: nat) -> Seq<usize>
    decreases n,
{
    if n == 0 || n > links.len() {
        Seq::empty()
    } else {
        let before = links_at(links, id, sources, (n - 1) as nat);
        if end_of(links[n - 1], sources) == id {
            before.push((n - 1) as usize)
        } else {
            before
        }
    }
}

/// The places of the flows that have a node as their end.
pub fn node_links(links: &Vec<Link>, id: u64, sources: bool) -> (r: Vec<usize>)
    ensures
        r@ == links_at(links.deep_view(), id, sources, links@.len()),
{
    let ghost lv = links.deep_view();
    let total: usize = links.len();
    assert(lv.len() == total);
    let mut out: Vec<usize> = Vec::new();
    let mut i: usize = 0;
    while i < total
        invariant
            i <= total,
            total == links@.len(),
            lv == links.deep_view(),
            lv.len() == total,
            out@ == links_at(lv, id, sources, i as nat),
        decreases total - i,
    {
        assert(lv[i as int] == links@[i as int].deep_view());
        let end: u64 = if sources {
            links[i].source
        } else {
            links[i].target
        };
        if end == id {
            out.push(i);
        }
        i = i + 1;
    }
    out
}

proof fn lemma_links_at(links: Seq<LinkView>, id: u64, sources: bool, n: nat, k: int)
    requires
        0 <= k < n <= links.len(),
        links.len() <= usize::MAX,
        end_of(links[k], sources) == id,
    ensures
        links_at(links, id, sources, n).contains(k as usize),
    decreases n,
{
    let all = links_at(links, id, sources, n);
    if k == n - 1 {
        assert(all[all.len() - 1] == k as usize);
    } else {
        lemma_links_at(links, id, sources, (n - 1) as nat, k);
        let before = links_at(links, id, sources, (n - 1) as nat);
        let p = choose|p: int| 0 <= p < before.len() && before[p] == k as usize;
        assert(all[p] == k as usize);
    }
}

/// No flow is lost: each stands with the node at its end.
pub proof fn every_flow_has_its_node(
    links: Seq<LinkView>,
    nodes: Seq<u64>,
    sources: bool,
    k: int,
)
    requires
        are_ends(nodes, links, sources, links.len() as int),
        0 <= k < links.len() <= usize::MAX,
    ensures
        nodes.contains(end_of(links[k], sources)),
        links_at(links, end_of(links[k], sources), sources, links.len()).contains(k as usize),
{
    lemma_links_at(links, end_of(links[k], sources), sources, links.len(), k);
}

// ── tiles ───────────────────────────────────────────────────────────────────

/// Whether `c` is the least number whose square is not below `n`.
pub open spec fn is_root_above(c: int, n: int) -> bool {
    c >= 0 && c * c >= n && (c > 0 ==> (c - 1) * (c - 1) < n)
}

/// The least number whose square is not below `n`.
pub fn root_above(n: usize) -> (c: usize)
    ensures
        is_root_above(c as int, n as int),
{
    let mut c: usize = 0;
    assert(0 * 0 == 0int);
    while (c as u128) * (c as u128) < n as u128
        invariant
            c <= n,
            c > 0 ==> (c - 1) * (c - 1) < n,
            0 <= c * c <= u128::MAX,
        decreases n - c,
    {
        assert(c < n) by (nonlinear_arith)
            requires
                c * c < n,
                0 <= c <= n,
        ;
        c = c + 1;
        assert(c * c <= u128::MAX) by (nonlinear_arith)
            requires
                0 <= c <= n,
                n <= 0xffff_ffff_ffff_ffff,
        ;
        assert(0 <= c * c) by (nonlinear_arith)
            requires
                0 <= c,
        ;
    }
    c
}

/// Whether `cols` is the number of columns for `n` tiles: the one asked for, else as
/// many as make the grid nearest to a square; at least one.
pub open spec fn is_column_count(opts: Json, n: int, cols: int) -> bool {
    match as_u64(field(opts, "cols"@)) {
        Some(c) => cols == if c == 0 {
            1
        } else {
            c as int
        },
        None => if n <= 0 {
            cols == 1
        } else {
            is_root_above(cols, n)
        },
    }
}

/// The number of columns for `n` tiles.
pub fn read_columns(opts: &Value, n: usize) -> (cols: u64)
    ensures
        is_column_count(opts.deep_view(), n as int, cols as int),
        cols >= 1,
{
    match opts.u64_at("cols") {
        Some(c) => if c == 0 {
            1
        } else {
            c
        },
        None => {
            let c = root_above(n);
            if c == 0 {
                assert(0int * 0 == 0);
                1
            } else {
                c as u64
            }
        },
    }
}

/// A number in 32 bits.
pub open spec fn in_32_bits(n: int) -> u32 {
    (n % 0x1_0000_0000) as u32
}

/// How many rows `n` tiles fill.
pub open spec fn row_count(n: int, cols: int) -> int {
    (n + cols - 1) / cols
}

/// The length of a side of `count` tiles with gaps round them.
pub open spec fn tiled_side(count: int, tile: u32, gap: u32) -> u32 {
    in_32_bits(count * tile + (count + 1) * gap)
}

/// Where tile `k` of a side starts.
pub open spec fn tile_start(k: int, tile: u32, gap: u32) -> u32 {
    in_32_bits(gap + k * (tile + gap))
}

proof fn lemma_small_product(a: int, b: int)
    requires
        0 <= a <= 0xffff_ffff_ffff_ffff,
        0 <= b <= 0x1_ffff_ffff,
    ensures
        0 <= a * b <= 0xffff_ffff_ffff_ffff * 0x1_ffff_ffff,
{
    assert(0 <= a * b <= 0xffff_ffff_ffff_ffff * 0x1_ffff_ffff) by (nonlinear_arith)
        requires
            0 <= a <= 0xffff_ffff_ffff_ffff,
            0 <= b <= 0x1_ffff_ffff,
    ;
}

pub fn measure_side(count: u64, tile: u32, gap: u32) -> (r: u32)
    ensures
        r == tiled_side(count as int, tile, gap),
{
    proof {
        lemma_small_product(count as int, tile as int);
        lemma_small_product(count as int, gap as int);
        assert((count + 1) * gap == count * gap + gap) by (nonlinear_arith);
    }
    let all: u128 = count as u128 * tile as u128 + count as u128 * gap as u128 + gap as u128;
    (all % 0x1_0000_0000) as u32
}

pub fn start_of_tile(k: u64, tile: u32, gap: u32) -> (r: u32)
    ensures
        r == tile_start(k as int, tile, gap),
{
    let step: u64 = tile as u64 + gap as u64;
    proof {
        lemma_small_product(k as int, step as int);
    }
    let all: u128 = gap as u128 + k as u128 * step as u128;
    (all % 0x1_0000_0000) as u32
}

/// A grid of tiles: its size, and where each tile stands.
pub struct Tiling {
    pub width: u32,
    pub height: u32,
    pub places: Vec<(u32, u32)>,
}

/// The largest of the first `n` widths, or heights.
pub open spec fn largest_side(sizes: Seq<(u32, u32)>, widths: bool, n: nat) -> u32
    decreases n,
{
    if n == 0 || n > sizes.len() {
        0
    } else {
        let before = largest_side(sizes, widths, (n - 1) as nat);
        let here = if widths {
            sizes[n - 1].0
        } else {
            sizes[n - 1].1
        };
        if here > before {
            here
        } else {
            before
        }
    }
}

fn find_largest_side(sizes: &Vec<(u32, u32)>, widths: bool) -> (r: u32)
    ensures
        r == largest_side(sizes@, widths, sizes@.len()),
{
    let mut best: u32 = 0;
    let mut i: usize = 0;
    while i < sizes.len()
        invariant
            i <= sizes@.len(),
            best == largest_side(sizes@, widths, i as nat),
        decreases sizes@.len() - i,
    {
        let here: u32 = if widths {
            sizes[i].0
        } else {
            sizes[i].1
        };
        if here > best {
            best = here;
        }
        i = i + 1;
    }
    best
}

/// The grid of tiles of these sizes: row by row, each tile as large as the largest.
pub open spec fn is_tiling(t: Tiling, sizes: Seq<(u32, u32)>, cols: int, gap: u32) -> bool {
    let n = sizes.len() as int;
    let w = largest_side(sizes, true, sizes.len());
    let h = largest_side(sizes, false, sizes.len());
    &&& t.width == tiled_side(cols, w, gap)
    &&& t.height == tiled_side(row_count(n, cols), h, gap)
    &&& t.places@.len() == n
    &&& forall|i: int|
        0 <= i < n ==> #[trigger] t.places@[i] == (
            tile_start(i % cols, w, gap),
            tile_start(i / cols, h, gap),
        )
}

/// Lays tiles out in a grid.
pub fn lay_tiles(sizes: &Vec<(u32, u32)>, cols: u64, gap: u32) -> (t: Tiling)
    requires
        cols >= 1,
    ensures
        is_tiling(t, sizes@, cols as int, gap),
{
    let n: u64 = sizes.len() as u64;
    let w = find_largest_side(sizes, true);
    let h = find_largest_side(sizes, false);
    let rows: u64 = ((n as u128 + cols as u128 - 1) / cols as u128) as u64;
    proof {
        assert(0 <= row_count(n as int, cols as int) <= n) by (nonlinear_arith)
            requires
                cols >= 1,
                n >= 0,
        ;
        assert(rows == row_count(n as int, cols as int));
    }
    let mut places: Vec<(u32, u32)> = Vec::new();
    let mut i: u64 = 0;
    while i < n
        invariant
            i <= n,
            n == sizes@.len(),
            cols >= 1,
            places@.len() == i,
            forall|j: int|
                0 <= j < i ==> #[trigger] places@[j] == (
                    tile_start(j % (cols as int), w, gap),
                    tile_start(j / (cols as int), h, gap),
                ),
        decreases n - i,
    {
        let x = start_of_tile(i % cols, w, gap);
        let y = start_of_tile(i / cols, h, gap);
        places.push((x, y));
        i = i + 1;
    }
    Tiling { width: measure_side(cols, w, gap), height: measure_side(rows, h, gap), places }
}

/// Tiles stand apart: where nothing exceeds 32 bits, a tile ends before the next one
/// in its row starts.
pub proof fn tiles_stand_apart(k: int, tile: u32, gap: u32)
    requires
        k >= 0,
        gap + (k + 1) * (tile + gap) < 0x1_0000_0000,
    ensures
        tile_start(k, tile, gap) + tile + gap == tile_start(k + 1, tile, gap),
{
    assert(k * (tile + gap) + (tile + gap) == (k + 1) * (tile + gap)) by (nonlinear_arith);
    assert(k * (tile + gap) >= 0) by (nonlinear_arith)
        requires
            k >= 0,
            tile >= 0,
            gap >= 0,
    ;
}

// ── a grid of charts ────────────────────────────────────────────────────────

/// Members with one more at the end, unless there is one of its name.
pub open spec fn with_default(o: Seq<(Seq<char>, Json)>, key: Seq<char>, v: Json) -> Seq<
    (Seq<char>, Json),
> {
    if member_pos(o, key, 0) < o.len() {
        o
    } else {
        o.push((key, v))
    }
}

/// A chart as it is drawn in a grid: of the size of the cells, unless it has its own.
pub open spec fn sized_chart(chart: Json, width: u64, height: u64) -> Json {
    match chart {
        Json::Object(o) => Json::Object(
            with_default(
                with_default(o, "width"@, Json::Number(Num::Unsigned(width))),
                "height"@,
                Json::Number(Num::Unsigned(height)),
            ),
        ),
        _ => chart,
    }
}

fn add_default(chart: Value, key: &str, n: u64) -> (r: Value)
    ensures
        r.deep_view() == (match chart.deep_view() {
            Json::Object(o) => Json::Object(
                with_default(o, key@, Json::Number(Num::Unsigned(n))),
            ),
            j => j,
        }),
{
    match chart {
        Value::Object(o) => {
            proof {
                lemma_object_view(&o);
            }
            let ghost ov = match chart.deep_view() {
                Json::Object(ov) => ov,
                _ => arbitrary(),
            };
            let mut o = o;
            let mut at: usize = 0;
            let total: usize = o.len();
            while at < total && !same(o[at].0.as_str(), key)
                invariant
                    at <= total,
                    total == o@.len(),
                    ov.len() == total,
                    forall|i: int| 0 <= i < total ==> (#[trigger] ov[i]).0 == o@[i].0@,
                    member_pos(ov, key@, 0) == member_pos(ov, key@, at as int),
                decreases total - at,
            {
                assert(ov[at as int].0 == o@[at as int].0@);
                at = at + 1;
            }
            if at < total {
                assert(ov[at as int].0 == o@[at as int].0@);
            }
            if at == total {
                crate::value::add_member(&mut o, key, Value::Number(Number::Unsigned(n)));
            }
            crate::value::object(o)
        },
        v => v,
    }
}

/// What a grid of charts is made of.
pub struct GridPlan {
    pub charts: Vec<Value>,
    pub gap: u32,
    pub cols: u64,
    pub background: Pixel,
}

/// A whole number under a key, or a default.
pub open spec fn whole_at(opts: Json, key: Seq<char>, default: u64) -> u64 {
    match as_u64(field(opts, key)) {
        Some(n) => n,
        None => default,
    }
}

fn read_whole(opts: &Value, key: &str, default: u64) -> (n: u64)
    ensures
        n == whole_at(opts.deep_view(), key@, default),
{
    match opts.u64_at(key) {
        Some(n) => n,
        None => default,
    }
}

/// Whether a plan is that of a grid of these charts.
pub open spec fn is_grid_plan(p: GridPlan, charts: Seq<Json>, opts: Json) -> bool {
    &&& p.charts.deep_view() == Seq::new(
        charts.len(),
        |i: int|
            sized_chart(
                charts[i],
                whole_at(opts, "cell_width"@, 400),
                whole_at(opts, "cell_height"@, 300),
            ),
    )
    &&& p.gap == in_32_bits(whole_at(opts, "gap"@, 10) as int)
    &&& is_column_count(opts, charts.len() as int, p.cols as int)
    &&& p.background == (match field(opts, "background"@) {
        Some(c) => color_of(Some(c)),
        None => white(),
    })
}

/// Decides what a grid of charts is made of.
pub fn op_chart_grid(opts: &Value) -> (r: Result<GridPlan, String>)
    ensures
        match (as_array(field(opts.deep_view(), "charts"@)), r) {
            (Some(a), Ok(p)) => a.len() > 0 && is_grid_plan(p, a, opts.deep_view()),
            (Some(a), Err(e)) => a.len() == 0 && e@ == "no charts to grid"@,
            (None, Ok(_)) => false,
            (None, Err(e)) => e@ == "missing charts (expected array of specs)"@,
        },
{
    match opts.array_at("charts") {
        Some(a) => {
            let total: usize = a.len();
            assert(a.deep_view().len() == total);
            if total == 0 {
                return Err(copy_text("no charts to grid"));
            }
            let width = read_whole(opts, "cell_width", 400);
            let height = read_whole(opts, "cell_height", 300);
            let ghost all = Seq::new(
                total as nat,
                |i: int| sized_chart(a.deep_view()[i], width, height),
            );
            let mut charts: Vec<Value> = Vec::new();
            assert(charts.deep_view() =~= all.take(0));
            let mut i: usize = 0;
            while i < total
                invariant
                    i <= total,
                    total == a@.len(),
                    a.deep_view().len() == total,
                    all == Seq::new(
                        total as nat,
                        |i: int| sized_chart(a.deep_view()[i], width, height),
                    ),
                    charts.deep_view() == all.take(i as int),
                decreases total - i,
            {
                assert(a.deep_view()[i as int] == a@[i as int].deep_view());
                let chart = add_default(add_default(a[i].dup(), "width", width), "height", height);
                assert(chart.deep_view() == all[i as int]);
                push_deep(&mut charts, chart);
                i = i + 1;
                assert(charts.deep_view() =~= all.take(i as int));
            }
            assert(all.take(i as int) =~= all);
            let background = match opts.get("background") {
                Some(c) => parse_color(Some(c)),
                None => Pixel { r: 255, g: 255, b: 255, a: 255 },
            };
            Ok(
                GridPlan {
                    charts,
                    gap: (read_whole(opts, "gap", 10) % 0x1_0000_0000) as u32,
                    cols: read_columns(opts, total),
                    background,
                },
            )
        },
        None => Err(copy_text("missing charts (expected array of specs)")),
    }
}

/// The rows of a grid hold all of its tiles, and none of them is empty.
pub proof fn rows_hold_all_tiles(n: int, cols: int)
    requires
        n > 0,
        cols > 0,
    ensures
        row_count(n, cols) * cols >= n,
        (row_count(n, cols) - 1) * cols < n,
{
    let q = row_count(n, cols);
    vstd::arithmetic::div_mod::lemma_fundamental_div_mod(n + cols - 1, cols);
    let r = (n + cols - 1) % cols;
    assert(q * cols == cols * q) by (nonlinear_arith);
    assert((q - 1) * cols == q * cols - cols) by (nonlinear_arith);
}

/// The flows at a node are those that start there, or those that lead there, in order.
pub proof fn flows_stand_at_their_ends(links: Seq<LinkView>, id: u64, n: nat)
    requires
        n <= links.len(),
    ensures
        links_at(links, id, true, n) == Seq::new(n, |k: int| k).filter(
            |k: int| links[k].source == id,
        ).map_values(|k: int| k as usize),
        links_at(links, id, false, n) == Seq::new(n, |k: int| k).filter(
            |k: int| links[k].target == id,
        ).map_values(|k: int| k as usize),
    decreases n,
{
    reveal(Seq::filter);
    let all = Seq::new(n, |k: int| k);
    let from = |k: int| links[k].source == id;
    let to = |k: int| links[k].target == id;
    let get = |k: int| k as usize;
    if n > 0 {
        flows_stand_at_their_ends(links, id, (n - 1) as nat);
        assert(all.drop_last() =~= Seq::new((n - 1) as nat, |k: int| k));
        assert(all.last() == n - 1);
        if from(n - 1) {
            assert(all.filter(from).map_values(get) =~= all.drop_last().filter(from).map_values(
                get,
            ).push(get(n - 1)));
        }
        if to(n - 1) {
            assert(all.filter(to).map_values(get) =~= all.drop_last().filter(to).map_values(
                get,
            ).push(get(n - 1)));
        }
    } else {
        assert(all.filter(from).map_values(get) =~= Seq::<usize>::empty());
        assert(all.filter(to).map_values(get) =~= Seq::<usize>::empty());
    }
}

} // verus!
