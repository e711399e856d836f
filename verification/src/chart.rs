//! What a chart shows: which drawing it is, its size, its colors, its legend, and the
//! numbers of its series.

use crate::color::{color_of, parse_color, text_color, white, Pixel};
use crate::deep::push_deep;
use crate::text::{copy_text, same};
use crate::value::{
    as_array, as_bool, as_text, as_u64, cell_text, cell_to_string, field, lemma_array_view, Json,
    Num, Number, Value,
};
use vstd::prelude::*;

verus! {

// ── drawings ────────────────────────────────────────────────────────────────

/// A way to draw a chart.
#[derive(Clone, Copy, PartialEq, Eq, Structural)]
pub enum Drawing {
    Sankey,
    Radar,
    Pie { hole: bool },
    Funnel,
    Gauge,
    Heatmap,
    Treemap,
    Polar,
    Bullet,
    Pareto,
    Gantt,
    Sunburst,
    Waffle,
    Slope,
    Marimekko,
    RadialBar,
    Calendar,
    Parallel,
    Hexbin,
    Line { filled: bool },
    StackedArea,
    Streamgraph,
    Range,
    PercentStacked,
    Step,
    Scatter,
    Bubble,
    Histogram,
    Bars { stacked: bool },
    Combo,
    Waterfall,
    Prices { candles: bool },
    Boxplot,
    Lollipop { stems: bool },
}

/// The drawing of a kind of chart; plain bars for a kind without one of its own.
pub open spec fn drawing_of(kind: Seq<char>) -> Drawing {
    if kind == "sankey"@ {
        Drawing::Sankey
    } else if kind == "radar"@ {
        Drawing::Radar
    } else if kind == "pie"@ {
        Drawing::Pie { hole: false }
    } else if kind == "donut"@ || kind == "doughnut"@ {
        Drawing::Pie { hole: true }
    } else if kind == "funnel"@ {
        Drawing::Funnel
    } else if kind == "gauge"@ {
        Drawing::Gauge
    } else if kind == "heatmap"@ {
        Drawing::Heatmap
    } else if kind == "treemap"@ {
        Drawing::Treemap
    } else if kind == "polar"@ {
        Drawing::Polar
    } else if kind == "bullet"@ {
        Drawing::Bullet
    } else if kind == "pareto"@ {
        Drawing::Pareto
    } else if kind == "gantt"@ {
        Drawing::Gantt
    } else if kind == "sunburst"@ {
        Drawing::Sunburst
    } else if kind == "waffle"@ {
        Drawing::Waffle
    } else if kind == "slope"@ {
        Drawing::Slope
    } else if kind == "marimekko"@ || kind == "mosaic"@ {
        Drawing::Marimekko
    } else if kind == "radial_bar"@ {
        Drawing::RadialBar
    } else if kind == "calendar"@ {
        Drawing::Calendar
    } else if kind == "parallel"@ {
        Drawing::Parallel
    } else if kind == "hexbin"@ {
        Drawing::Hexbin
    } else {
        axis_drawing_of(kind)
    }
}

/// The drawing of a kind of chart that stands between two axes.
pub open spec fn axis_drawing_of(kind: Seq<char>) -> Drawing {
    if kind == "line"@ {
        Drawing::Line { filled: false }
    } else if kind == "area"@ {
        Drawing::Line { filled: true }
    } else if kind == "stacked_area"@ {
        Drawing::StackedArea
    } else if kind == "streamgraph"@ {
        Drawing::Streamgraph
    } else if kind == "range"@ || kind == "range_bar"@ || kind == "range_column"@ {
        Drawing::Range
    } else if kind == "percent_stacked"@ {
        Drawing::PercentStacked
    } else if kind == "step"@ {
        Drawing::Step
    } else if kind == "scatter"@ {
        Drawing::Scatter
    } else if kind == "bubble"@ {
        Drawing::Bubble
    } else if kind == "histogram"@ {
        Drawing::Histogram
    } else if kind == "stacked"@ || kind == "stacked_bar"@ {
        Drawing::Bars { stacked: true }
    } else if kind == "combo"@ {
        Drawing::Combo
    } else if kind == "waterfall"@ {
        Drawing::Waterfall
    } else if kind == "ohlc"@ {
        Drawing::Prices { candles: false }
    } else if kind == "candlestick"@ {
        Drawing::Prices { candles: true }
    } else if kind == "boxplot"@ {
        Drawing::Boxplot
    } else if kind == "lollipop"@ {
        Drawing::Lollipop { stems: true }
    } else if kind == "dot"@ {
        Drawing::Lollipop { stems: false }
    } else {
        Drawing::Bars { stacked: false }
    }
}

fn read_axis_drawing(kind: &str) -> (d: Drawing)
    ensures
        d == axis_drawing_of(kind@),
{
    if same(kind, "line") {
        Drawing::Line { filled: false }
    } else if same(kind, "area") {
        Drawing::Line { filled: true }
    } else if same(kind, "stacked_area") {
        Drawing::StackedArea
    } else if same(kind, "streamgraph") {
        Drawing::Streamgraph
    } else if same(kind, "range") || same(kind, "range_bar") || same(kind, "range_column") {
        Drawing::Range
    } else if same(kind, "percent_stacked") {
        Drawing::PercentStacked
    } else if same(kind, "step") {
        Drawing::Step
    } else if same(kind, "scatter") {
        Drawing::Scatter
    } else if same(kind, "bubble") {
        Drawing::Bubble
    } else if same(kind, "histogram") {
        Drawing::Histogram
    } else if same(kind, "stacked") || same(kind, "stacked_bar") {
        Drawing::Bars { stacked: true }
    } else if same(kind, "combo") {
        Drawing::Combo
    } else if same(kind, "waterfall") {
        Drawing::Waterfall
    } else if same(kind, "ohlc") {
        Drawing::Prices { candles: false }
    } else if same(kind, "candlestick") {
        Drawing::Prices { candles: true }
    } else if same(kind, "boxplot") {
        Drawing::Boxplot
    } else if same(kind, "lollipop") {
        Drawing::Lollipop { stems: true }
    } else if same(kind, "dot") {
        Drawing::Lollipop { stems: false }
    } else {
        Drawing::Bars { stacked: false }
    }
}

pub fn read_drawing(kind: &str) -> (d: Drawing)
    ensures
        d == drawing_of(kind@),
{
    if same(kind, "sankey") {
        Drawing::Sankey
    } else if same(kind, "radar") {
        Drawing::Radar
    } else if same(kind, "pie") {
        Drawing::Pie { hole: false }
    } else if same(kind, "donut") || same(kind, "doughnut") {
        Drawing::Pie { hole: true }
    } else if same(kind, "funnel") {
        Drawing::Funnel
    } else if same(kind, "gauge") {
        Drawing::Gauge
    } else if same(kind, "heatmap") {
        Drawing::Heatmap
    } else if same(kind, "treemap") {
        Drawing::Treemap
    } else if same(kind, "polar") {
        Drawing::Polar
    } else if same(kind, "bullet") {
        Drawing::Bullet
    } else if same(kind, "pareto") {
        Drawing::Pareto
    } else if same(kind, "gantt") {
        Drawing::Gantt
    } else if same(kind, "sunburst") {
        Drawing::Sunburst
    } else if same(kind, "waffle") {
        Drawing::Waffle
    } else if same(kind, "slope") {
        Drawing::Slope
    } else if same(kind, "marimekko") || same(kind, "mosaic") {
        Drawing::Marimekko
    } else if same(kind, "radial_bar") {
        Drawing::RadialBar
    } else if same(kind, "calendar") {
        Drawing::Calendar
    } else if same(kind, "parallel") {
        Drawing::Parallel
    } else if same(kind, "hexbin") {
        Drawing::Hexbin
    } else {
        read_axis_drawing(kind)
    }
}

/// Whether a drawing is made from the list of series.
pub open spec fn draws_series(d: Drawing) -> bool {
    !(d is Sankey || d is Gauge || d is Heatmap || d is Sunburst || d is Calendar)
}

fn shows_series(d: Drawing) -> (r: bool)
    ensures
        r == draws_series(d),
{
    match d {
        Drawing::Sankey | Drawing::Gauge | Drawing::Heatmap | Drawing::Sunburst
        | Drawing::Calendar => false,
        _ => true,
    }
}

/// Whether a drawing stands between two axes.
pub open spec fn has_axes(d: Drawing) -> bool {
    match d {
        Drawing::Line { .. } | Drawing::StackedArea | Drawing::Streamgraph | Drawing::Range
        | Drawing::PercentStacked | Drawing::Step | Drawing::Scatter | Drawing::Bubble
        | Drawing::Histogram | Drawing::Bars { .. } | Drawing::Combo | Drawing::Waterfall
        | Drawing::Prices { .. } | Drawing::Boxplot | Drawing::Lollipop { .. } => true,
        _ => false,
    }
}

pub fn stands_on_axes(d: Drawing) -> (r: bool)
    ensures
        r == has_axes(d),
{
    match d {
        Drawing::Line { .. } | Drawing::StackedArea | Drawing::Streamgraph | Drawing::Range
        | Drawing::PercentStacked | Drawing::Step | Drawing::Scatter | Drawing::Bubble
        | Drawing::Histogram | Drawing::Bars { .. } | Drawing::Combo | Drawing::Waterfall
        | Drawing::Prices { .. } | Drawing::Boxplot | Drawing::Lollipop { .. } => true,
        _ => false,
    }
}

// ── colors ──────────────────────────────────────────────────────────────────

/// The colors that series take in turn where a chart names none.
pub open spec fn house_colors() -> Seq<Seq<char>> {
    seq![
        "#4472C4"@,
        "#ED7D31"@,
        "#A5A5A5"@,
        "#FFC000"@,
        "#5B9BD5"@,
        "#70AD47"@,
        "#264478"@,
        "#9E480E"@,
        "#636363"@,
        "#997300"@,
    ]
}

/// The texts among the first `n` values.
pub open spec fn text_items(a: Seq<Json>, n: nat) -> Seq<Seq<char>>
    decreases n,
{
    if n == 0 || n > a.len() {
        Seq::empty()
    } else {
        let before = text_items(a, (n - 1) as nat);
        match a[n - 1] {
            Json::Text(s) => before.push(s),
            _ => before,
        }
    }
}

/// The colors that a chart names.
pub open spec fn custom_colors(opts: Json) -> Seq<Seq<char>> {
    match as_array(field(opts, "palette"@)) {
        Some(a) => text_items(a, a.len()),
        None => Seq::empty(),
    }
}

/// Reads the colors that a chart names.
pub fn set_palette(opts: &Value) -> (r: Vec<String>)
    ensures
        r.deep_view() == custom_colors(opts.deep_view()),
{
    let mut out: Vec<String> = Vec::new();
    assert(out.deep_view() =~= Seq::<Seq<char>>::empty());
    if let Some(a) = opts.array_at("palette") {
        let ghost av = a.deep_view();
        let total: usize = a.len();
        let mut i: usize = 0;
        while i < total
            invariant
                i <= total,
                total == a@.len(),
                av == a.deep_view(),
                av.len() == total,
                out.deep_view() == text_items(av, i as nat),
            decreases total - i,
        {
            assert(av[i as int] == a@[i as int].deep_view());
            if let Value::Text(s) = &a[i] {
                push_deep(&mut out, copy_text(s.as_str()));
            }
            i = i + 1;
        }
    }
    out
}

/// The color at place `i` of a cycle.
pub open spec fn cycle_color(colors: Seq<Seq<char>>, i: int) -> Pixel {
    if colors.len() == 0 {
        text_color(house_colors()[i % 10])
    } else {
        text_color(colors[i % (colors.len() as int)])
    }
}

fn color_of_text(s: &str) -> (p: Pixel)
    ensures
        p == text_color(s@),
{
    let v = Value::Text(copy_text(s));
    assert(v.deep_view() == Json::Text(s@));
    parse_color(Some(&v))
}

/// The color at place `i` of a cycle.
pub fn palette(colors: &Vec<String>, i: usize) -> (p: Pixel)
    ensures
        p == cycle_color(colors.deep_view(), i as int),
{
    assert(colors.deep_view().len() == colors@.len());
    if colors.len() > 0 {
        let k: usize = i % colors.len();
        assert(colors.deep_view()[k as int] == colors@[k as int]@);
        color_of_text(colors[k].as_str())
    } else {
        let k: usize = i % 10;
        let name: &str = if k == 0 {
            "#4472C4"
        } else if k == 1 {
            "#ED7D31"
        } else if k == 2 {
            "#A5A5A5"
        } else if k == 3 {
            "#FFC000"
        } else if k == 4 {
            "#5B9BD5"
        } else if k == 5 {
            "#70AD47"
        } else if k == 6 {
            "#264478"
        } else if k == 7 {
            "#9E480E"
        } else if k == 8 {
            "#636363"
        } else {
            "#997300"
        };
        assert(name@ == house_colors()[k as int]);
        color_of_text(name)
    }
}

/// The color of a series: the one that it names, else the one at its place.
pub open spec fn color_of_series(colors: Seq<Seq<char>>, s: Json, i: int) -> Pixel {
    match field(s, "color"@) {
        Some(c) => color_of(Some(c)),
        None => cycle_color(colors, i),
    }
}

pub fn series_color(colors: &Vec<String>, s: &Value, i: usize) -> (p: Pixel)
    ensures
        p == color_of_series(colors.deep_view(), s.deep_view(), i as int),
{
    match s.get("color") {
        Some(c) => parse_color(Some(c)),
        None => palette(colors, i),
    }
}

/// No color leaks from one chart into another: two charts that name the same colors show
/// the same ones, whatever else they ask for, and one that names none shows the house colors
/// whatever another names.
pub proof fn colors_do_not_leak(one: Json, other: Json, s: Json, i: int)
    requires
        i >= 0,
    ensures
        field(one, "palette"@) == field(other, "palette"@) ==> color_of_series(
            custom_colors(one),
            s,
            i,
        ) == color_of_series(custom_colors(other), s, i),
        field(one, "palette"@) is None && field(s, "color"@) is None ==> color_of_series(
            custom_colors(one),
            s,
            i,
        ) == text_color(house_colors()[i % 10]),
{
}

/// Places that are a whole turn of the cycle apart share a color.
pub proof fn colors_come_round(colors: Seq<Seq<char>>, i: int, turns: int)
    requires
        i >= 0,
        turns >= 0,
    ensures
        colors.len() == 0 ==> cycle_color(colors, i + 10 * turns) == cycle_color(colors, i),
        colors.len() > 0 ==> cycle_color(colors, i + colors.len() * turns) == cycle_color(
            colors,
            i,
        ),
{
    if colors.len() == 0 {
        assert((i + 10 * turns) % 10 == i % 10);
    } else {
        let n = colors.len() as int;
        vstd::arithmetic::div_mod::lemma_mod_multiples_vanish(turns, i, n);
    }
}

// ── legend ──────────────────────────────────────────────────────────────────

pub open spec fn entries_view(es: Seq<(String, Pixel)>) -> Seq<(Seq<char>, Pixel)> {
    Seq::new(es.len(), |i: int| (es[i].0@, es[i].1))
}

/// The named series among the first `n`, each with its color.
pub open spec fn named_series(colors: Seq<Seq<char>>, series: Seq<Json>, n: nat) -> Seq<
    (Seq<char>, Pixel),
>
    decreases n,
{
    if n == 0 || n > series.len() {
        Seq::empty()
    } else {
        let before = named_series(colors, series, (n - 1) as nat);
        match as_text(field(series[n - 1], "name"@)) {
            Some(name) => before.push((name, color_of_series(colors, series[n - 1], n - 1))),
            None => before,
        }
    }
}

/// What the legend of a drawing lists: the categories where each has a color of its
/// own, else the named series.
pub open spec fn legend_of(
    d: Drawing,
    colors: Seq<Seq<char>>,
    series: Seq<Json>,
    categories: Seq<Seq<char>>,
) -> Seq<(Seq<char>, Pixel)> {
    if d is Pie || d is Funnel {
        Seq::new(categories.len(), |i: int| (categories[i], cycle_color(colors, i)))
    } else {
        named_series(colors, series, series.len())
    }
}

pub fn legend_entries(
    d: Drawing,
    colors: &Vec<String>,
    series: &Vec<Value>,
    categories: &Vec<String>,
) -> (r: Vec<(String, Pixel)>)
    ensures
        entries_view(r@) == legend_of(
            d,
            colors.deep_view(),
            series.deep_view(),
            categories.deep_view(),
        ),
{
    let ghost cv = colors.deep_view();
    let mut out: Vec<(String, Pixel)> = Vec::new();
    let by_category = match d {
        Drawing::Pie { .. } | Drawing::Funnel => true,
        _ => false,
    };
    if by_category {
        let ghost all = legend_of(d, cv, series.deep_view(), categories.deep_view());
        let total: usize = categories.len();
        assert(categories.deep_view().len() == total);
        let mut i: usize = 0;
        assert(entries_view(out@) =~= all.take(0));
        while i < total
            invariant
                i <= total,
                total == categories@.len(),
                categories.deep_view().len() == total,
                cv == colors.deep_view(),
                all == Seq::new(
                    total as nat,
                    |i: int| (categories.deep_view()[i], cycle_color(cv, i)),
                ),
                entries_view(out@) == all.take(i as int),
            decreases total - i,
        {
            let ghost was = out@;
            assert(categories.deep_view()[i as int] == categories@[i as int]@);
            out.push((copy_text(categories[i].as_str()), palette(colors, i)));
            assert(entries_view(out@) =~= entries_view(was).push(all[i as int]));
            i = i + 1;
            assert(entries_view(out@) =~= all.take(i as int));
        }
        assert(all.take(i as int) =~= all);
    } else {
        let ghost sv = series.deep_view();
        let total: usize = series.len();
        assert(sv.len() == total);
        let mut i: usize = 0;
        assert(entries_view(out@) =~= Seq::<(Seq<char>, Pixel)>::empty());
        while i < total
            invariant
                i <= total,
                total == series@.len(),
                sv == series.deep_view(),
                sv.len() == total,
                cv == colors.deep_view(),
                entries_view(out@) == named_series(cv, sv, i as nat),
            decreases total - i,
        {
            let ghost was = out@;
            assert(sv[i as int] == series@[i as int].deep_view());
            if let Some(name) = series[i].text_at("name") {
                let c = series_color(colors, &series[i], i);
                out.push((copy_text(name), c));
                assert(entries_view(out@) =~= entries_view(was).push((name@, c)));
            }
            i = i + 1;
        }
    }
    out
}

// ── the plan of a chart ─────────────────────────────────────────────────────

/// A side of a chart in pixels.
pub open spec fn side_of(opts: Json, key: Seq<char>, default: u64) -> u64 {
    let n = match as_u64(field(opts, key)) {
        Some(u) => u,
        None => default,
    };
    if n < 120 {
        120
    } else {
        n
    }
}

pub fn read_side(opts: &Value, key: &str, default: u64) -> (n: u64)
    ensures
        n == side_of(opts.deep_view(), key@, default),
{
    let n: u64 = match opts.u64_at(key) {
        Some(u) => u,
        None => default,
    };
    if n < 120 {
        120
    } else {
        n
    }
}

/// The names of the categories.
pub open spec fn categories_of(opts: Json) -> Seq<Seq<char>> {
    match as_array(field(opts, "categories"@)) {
        Some(a) => Seq::new(a.len(), |i: int| cell_text(a[i])),
        None => Seq::empty(),
    }
}

pub fn read_categories(opts: &Value) -> (r: Vec<String>)
    ensures
        r.deep_view() == categories_of(opts.deep_view()),
{
    let mut out: Vec<String> = Vec::new();
    assert(out.deep_view() =~= Seq::<Seq<char>>::empty());
    if let Some(a) = opts.array_at("categories") {
        let ghost all = categories_of(opts.deep_view());
        let total: usize = a.len();
        assert(a.deep_view().len() == total);
        let mut i: usize = 0;
        assert(out.deep_view() =~= all.take(0));
        while i < total
            invariant
                i <= total,
                total == a@.len(),
                a.deep_view().len() == total,
                all == Seq::new(total as nat, |i: int| cell_text(a.deep_view()[i])),
                out.deep_view() == all.take(i as int),
            decreases total - i,
        {
            assert(a.deep_view()[i as int] == a@[i as int].deep_view());
            push_deep(&mut out, cell_to_string(&a[i]));
            i = i + 1;
            assert(out.deep_view() =~= all.take(i as int));
        }
        assert(all.take(i as int) =~= all);
    }
    out
}

/// The kind of a chart.
pub open spec fn kind_of(opts: Json) -> Seq<char> {
    match as_text(field(opts, "type"@)) {
        Some(s) => s,
        None => "bar"@,
    }
}

/// The title of a chart.
pub open spec fn title_of(opts: Json) -> Seq<char> {
    match as_text(field(opts, "title"@)) {
        Some(s) => s,
        None => ""@,
    }
}

/// The series of a chart.
pub open spec fn series_of(opts: Json) -> Seq<Json> {
    match as_array(field(opts, "series"@)) {
        Some(a) => a,
        None => Seq::empty(),
    }
}

/// Whether a chart asks for something.
pub open spec fn asks_for(opts: Json, key: Seq<char>) -> bool {
    as_bool(field(opts, key)) == Some(true)
}

fn is_asked(opts: &Value, key: &str) -> (r: bool)
    ensures
        r == asks_for(opts.deep_view(), key@),
{
    match opts.bool_at(key) {
        Some(b) => b,
        None => false,
    }
}

fn read_text(opts: &Value, key: &str, default: &str) -> (r: String)
    ensures
        r@ == (match as_text(field(opts.deep_view(), key@)) {
            Some(s) => s,
            None => default@,
        }),
{
    match opts.text_at(key) {
        Some(s) => copy_text(s),
        None => copy_text(default),
    }
}

/// Fails unless a chart has a list of series.
pub fn require_series(opts: &Value) -> (r: Result<(), String>)
    ensures
        match r {
            Ok(_) => as_array(field(opts.deep_view(), "series"@)) is Some,
            Err(e) => as_array(field(opts.deep_view(), "series"@)) is None && e@
                == "missing series (expected array)"@,
        },
{
    match opts.array_at("series") {
        Some(_) => Ok(()),
        None => Err(copy_text("missing series (expected array)")),
    }
}

/// Whether points are marked on the lines of a drawing.
pub open spec fn marks_points(d: Drawing) -> bool {
    d is Line || d is Step || d is StackedArea
}

/// Whether a kind of chart shows how far its numbers may be off.
pub open spec fn shows_errors(kind: Seq<char>) -> bool {
    kind == "bar"@ || kind == "column"@ || kind == "line"@ || kind == "area"@ || kind == "scatter"@
}

/// Whether the categories stand under the axis of a drawing.
pub open spec fn names_categories(d: Drawing) -> bool {
    d is Waterfall || d is Combo || d is Prices || d is Boxplot
}

/// All that is decided of a chart before its first line is drawn.
pub struct ChartPlan {
    pub kind: String,
    pub drawing: Drawing,
    pub width: u32,
    pub height: u32,
    pub categories: Vec<String>,
    pub title: String,
    pub labels: bool,
    pub smooth: bool,
    pub background: Pixel,
    pub colors: Vec<String>,
    pub log_scale: bool,
    pub markers: bool,
    pub trendline: bool,
    pub errors: bool,
    pub category_labels: bool,
    pub legend: Vec<(String, Pixel)>,
}

/// Whether a plan is that of a chart.
pub open spec fn is_plan_of(p: ChartPlan, opts: Json) -> bool {
    let d = drawing_of(kind_of(opts));
    &&& p.kind@ == kind_of(opts)
    &&& p.drawing == d
    &&& p.width == (side_of(opts, "width"@, 800) % 0x1_0000_0000) as u32
    &&& p.height == (side_of(opts, "height"@, 600) % 0x1_0000_0000) as u32
    &&& p.categories.deep_view() == categories_of(opts)
    &&& p.title@ == title_of(opts)
    &&& p.labels == asks_for(opts, "labels"@)
    &&& p.smooth == asks_for(opts, "smooth"@)
    &&& p.background == (match field(opts, "background"@) {
        Some(c) => color_of(Some(c)),
        None => white(),
    })
    &&& p.colors.deep_view() == custom_colors(opts)
    &&& p.log_scale == asks_for(opts, "log_y"@)
    &&& p.markers == (asks_for(opts, "markers"@) && marks_points(d))
    &&& p.trendline == (asks_for(opts, "trendline"@) && (d is Scatter || d is Bubble))
    &&& p.errors == shows_errors(kind_of(opts))
    &&& p.category_labels == names_categories(d)
    &&& entries_view(p.legend@) == (if as_bool(field(opts, "legend"@)) == Some(false) {
        Seq::empty()
    } else {
        legend_of(d, custom_colors(opts), series_of(opts), categories_of(opts))
    })
}

/// Decides how a chart is drawn.
pub fn op_chart_render(opts: &Value) -> (r: Result<ChartPlan, String>)
    ensures
        match r {
            Ok(p) => (!draws_series(drawing_of(kind_of(opts.deep_view()))) || as_array(
                field(opts.deep_view(), "series"@),
            ) is Some) && is_plan_of(p, opts.deep_view()),
            Err(e) => draws_series(drawing_of(kind_of(opts.deep_view()))) && as_array(
                field(opts.deep_view(), "series"@),
            ) is None && e@ == "missing series (expected array)"@,
        },
{
    let kind = read_text(opts, "type", "bar");
    let drawing = read_drawing(kind.as_str());
    if shows_series(drawing) {
        match require_series(opts) {
            Ok(_) => {},
            Err(e) => {
                return Err(e);
            },
        }
    }
    let width = (read_side(opts, "width", 800) % 0x1_0000_0000) as u32;
    let height = (read_side(opts, "height", 600) % 0x1_0000_0000) as u32;
    let categories = read_categories(opts);
    let colors = set_palette(opts);
    let background = match opts.get("background") {
        Some(c) => parse_color(Some(c)),
        None => Pixel { r: 255, g: 255, b: 255, a: 255 },
    };
    let marked = match drawing {
        Drawing::Line { .. } | Drawing::Step | Drawing::StackedArea => true,
        _ => false,
    };
    let dotted = match drawing {
        Drawing::Scatter | Drawing::Bubble => true,
        _ => false,
    };
    let named = match drawing {
        Drawing::Waterfall | Drawing::Combo | Drawing::Prices { .. } | Drawing::Boxplot => true,
        _ => false,
    };
    let errors = same(kind.as_str(), "bar") || same(kind.as_str(), "column") || same(
        kind.as_str(),
        "line",
    ) || same(kind.as_str(), "area") || same(kind.as_str(), "scatter");
    let hidden = match opts.bool_at("legend") {
        Some(b) => !b,
        None => false,
    };
    let legend: Vec<(String, Pixel)> = if hidden {
        let none: Vec<(String, Pixel)> = Vec::new();
        assert(entries_view(none@) =~= Seq::<(Seq<char>, Pixel)>::empty());
        none
    } else {
        match opts.array_at("series") {
            Some(a) => legend_entries(drawing, &colors, a, &categories),
            None => {
                let no_series: Vec<Value> = Vec::new();
                assert(no_series.deep_view() =~= Seq::<Json>::empty());
                legend_entries(drawing, &colors, &no_series, &categories)
            },
        }
    };
    Ok(
        ChartPlan {
            drawing,
            width,
            height,
            categories,
            title: read_text(opts, "title", ""),
            labels: is_asked(opts, "labels"),
            smooth: is_asked(opts, "smooth"),
            background,
            colors,
            log_scale: is_asked(opts, "log_y"),
            markers: is_asked(opts, "markers") && marked,
            trendline: is_asked(opts, "trendline") && dotted,
            errors,
            category_labels: named,
            legend,
            kind,
        },
    )
}

// ── numbers ─────────────────────────────────────────────────────────────────

/// The numbers among the first `n` values.
pub open spec fn number_items(a: Seq<Json>, n: nat) -> Seq<Num>
    decreases n,
{
    if n == 0 || n > a.len() {
        Seq::empty()
    } else {
        let before = number_items(a, (n - 1) as nat);
        match a[n - 1] {
            Json::Number(x) => before.push(x),
            _ => before,
        }
    }
}

/// The numbers of a list.
pub fn numbers_of(a: &Vec<Value>) -> (r: Vec<Number>)
    ensures
        r.deep_view() == number_items(a.deep_view(), a@.len()),
{
    let ghost av = a.deep_view();
    let total: usize = a.len();
    assert(av.len() == total);
    let mut out: Vec<Number> = Vec::new();
    assert(out.deep_view() =~= Seq::<Num>::empty());
    let mut i: usize = 0;
    while i < total
        invariant
            i <= total,
            total == a@.len(),
            av == a.deep_view(),
            av.len() == total,
            out.deep_view() == number_items(av, i as nat),
        decreases total - i,
    {
        assert(av[i as int] == a@[i as int].deep_view());
        if let Value::Number(x) = &a[i] {
            push_deep(&mut out, x.dup());
        }
        i = i + 1;
    }
    out
}

/// The numbers in a list that stands under a key.
pub open spec fn numbers_at(v: Json, key: Seq<char>) -> Seq<Num> {
    match as_array(field(v, key)) {
        Some(a) => number_items(a, a.len()),
        None => Seq::empty(),
    }
}

pub fn read_numbers(v: &Value, key: &str) -> (r: Vec<Number>)
    ensures
        r.deep_view() == numbers_at(v.deep_view(), key@),
{
    match v.array_at(key) {
        Some(a) => {
            assert(a.deep_view().len() == a@.len());
            numbers_of(a)
        },
        None => {
            let none: Vec<Number> = Vec::new();
            assert(none.deep_view() =~= Seq::<Num>::empty());
            none
        },
    }
}

/// The numbers of a series.
pub fn series_nums(s: &Value) -> (r: Vec<Number>)
    ensures
        r.deep_view() == numbers_at(s.deep_view(), "data"@),
{
    read_numbers(s, "data")
}

/// The first `k` items of a list, where they are numbers.
pub open spec fn tuple_of(j: Json, k: nat) -> Option<Seq<Num>> {
    match j {
        Json::Array(a) => if k <= a.len() && number_items(a, k).len() == k {
            Some(number_items(a, k))
        } else {
            None
        },
        _ => None,
    }
}

proof fn lemma_number_items(a: Seq<Json>, n: nat)
    requires
        n <= a.len(),
    ensures
        number_items(a, n).len() <= n,
    decreases n,
{
    if n > 0 {
        lemma_number_items(a, (n - 1) as nat);
    }
}

proof fn lemma_tuple_grows(a: Seq<Json>, n: nat, k: nat)
    requires
        n <= k <= a.len(),
        number_items(a, n).len() < n,
    ensures
        number_items(a, k).len() < k,
    decreases k,
{
    if n < k {
        lemma_tuple_grows(a, n, (k - 1) as nat);
    }
}

fn read_tuple(v: &Value, k: usize) -> (r: Option<Vec<Number>>)
    ensures
        match r {
            Some(t) => tuple_of(v.deep_view(), k as nat) == Some(t.deep_view()),
            None => tuple_of(v.deep_view(), k as nat) is None,
        },
{
    match v {
        Value::Array(a) => {
            proof {
                lemma_array_view(a);
            }
            let ghost av = a.deep_view();
            assert(av.len() == a@.len());
            if a.len() < k {
                return None;
            }
            let mut out: Vec<Number> = Vec::new();
            assert(out.deep_view() =~= Seq::<Num>::empty());
            let mut i: usize = 0;
            while i < k
                invariant
                    i <= k <= a@.len(),
                    av == a.deep_view(),
                    av.len() == a@.len(),
                    v.deep_view() == Json::Array(av),
                    out@.len() == i,
                    out.deep_view() == number_items(av, i as nat),
                decreases k - i,
            {
                assert(av[i as int] == a@[i as int].deep_view());
                match &a[i] {
                    Value::Number(x) => {
                        push_deep(&mut out, x.dup());
                    },
                    _ => {
                        proof {
                            lemma_number_items(av, i as nat);
                            lemma_tuple_grows(av, (i + 1) as nat, k as nat);
                        }
                        return None;
                    },
                }
                i = i + 1;
            }
            assert(out.deep_view().len() == out@.len());
            Some(out)
        },
        _ => None,
    }
}

/// The tuples of `k` numbers among the first `n` values.
pub open spec fn tuple_items(a: Seq<Json>, k: nat, n: nat) -> Seq<Seq<Num>>
    decreases n,
{
    if n == 0 || n > a.len() {
        Seq::empty()
    } else {
        let before = tuple_items(a, k, (n - 1) as nat);
        match tuple_of(a[n - 1], k) {
            Some(t) => before.push(t),
            None => before,
        }
    }
}

/// The tuples of `k` numbers that a series holds.
pub open spec fn tuples_of(s: Json, k: nat) -> Seq<Seq<Num>> {
    match as_array(field(s, "data"@)) {
        Some(a) => tuple_items(a, k, a.len()),
        None => Seq::empty(),
    }
}

fn read_tuples(s: &Value, k: usize) -> (r: Vec<Vec<Number>>)
    ensures
        r.deep_view() == tuples_of(s.deep_view(), k as nat),
{
    let mut out: Vec<Vec<Number>> = Vec::new();
    assert(out.deep_view() =~= Seq::<Seq<Num>>::empty());
    if let Some(a) = s.array_at("data") {
        let ghost av = a.deep_view();
        let total: usize = a.len();
        assert(av.len() == total);
        let mut i: usize = 0;
        while i < total
            invariant
                i <= total,
                total == a@.len(),
                av == a.deep_view(),
                av.len() == total,
                out.deep_view() == tuple_items(av, k as nat, i as nat),
            decreases total - i,
        {
            assert(av[i as int] == a@[i as int].deep_view());
            if let Some(t) = read_tuple(&a[i], k) {
                push_deep(&mut out, t);
            }
            i = i + 1;
        }
    }
    out
}

/// The points of a series.
pub fn series_points(s: &Value) -> (r: Vec<Vec<Number>>)
    ensures
        r.deep_view() == tuples_of(s.deep_view(), 2),
{
    read_tuples(s, 2)
}

/// The low and high ends that a series holds.
pub fn series_pairs(s: &Value) -> (r: Vec<Vec<Number>>)
    ensures
        r.deep_view() == tuples_of(s.deep_view(), 2),
{
    read_tuples(s, 2)
}

/// The opening, highest, lowest and closing prices of a series.
pub fn series_ohlc(s: &Value) -> (r: Vec<Vec<Number>>)
    ensures
        r.deep_view() == tuples_of(s.deep_view(), 4),
{
    read_tuples(s, 4)
}

/// The points among the first `n` values, each with its size where it has one.
pub open spec fn bubble_items(a: Seq<Json>, n: nat) -> Seq<(Seq<Num>, Option<Num>)>
    decreases n,
{
    if n == 0 || n > a.len() {
        Seq::empty()
    } else {
        let before = bubble_items(a, (n - 1) as nat);
        match tuple_of(a[n - 1], 2) {
            Some(t) => before.push((t, size_item(a[n - 1]))),
            None => before,
        }
    }
}

/// The third item of a list, where it is a number.
pub open spec fn size_item(j: Json) -> Option<Num> {
    match j {
        Json::Array(a) => if a.len() > 2 {
            match a[2] {
                Json::Number(x) => Some(x),
                _ => None,
            }
        } else {
            None
        },
        _ => None,
    }
}

/// The points of a series, each with its size where it has one.
pub open spec fn bubbles_of(s: Json) -> Seq<(Seq<Num>, Option<Num>)> {
    match as_array(field(s, "data"@)) {
        Some(a) => bubble_items(a, a.len()),
        None => Seq::empty(),
    }
}

/// A point, and its size where it has one.
pub struct Bubble {
    pub point: Vec<Number>,
    pub size: Option<Number>,
}

impl DeepView for Bubble {
    type V = (Seq<Num>, Option<Num>);

    open spec fn deep_view(&self) -> (Seq<Num>, Option<Num>) {
        (self.point.deep_view(), opt_num(self.size))
    }
}

pub open spec fn opt_num(n: Option<Number>) -> Option<Num> {
    match n {
        Some(x) => Some(x.deep_view()),
        None => None,
    }
}

fn read_size(v: &Value) -> (r: Option<Number>)
    ensures
        opt_num(r) == size_item(v.deep_view()),
{
    match v {
        Value::Array(a) => {
            proof {
                lemma_array_view(a);
            }
            assert(a.deep_view().len() == a@.len());
            if a.len() > 2 {
                assert(a.deep_view()[2] == a@[2].deep_view());
                match &a[2] {
                    Value::Number(x) => Some(x.dup()),
                    _ => None,
                }
            } else {
                None
            }
        },
        _ => None,
    }
}

/// The points of a series, each with its size where it has one.
pub fn series_points3(s: &Value) -> (r: Vec<Bubble>)
    ensures
        r.deep_view() == bubbles_of(s.deep_view()),
{
    let mut out: Vec<Bubble> = Vec::new();
    assert(out.deep_view() =~= Seq::<(Seq<Num>, Option<Num>)>::empty());
    if let Some(a) = s.array_at("data") {
        let ghost av = a.deep_view();
        let total: usize = a.len();
        assert(av.len() == total);
        let mut i: usize = 0;
        while i < total
            invariant
                i <= total,
                total == a@.len(),
                av == a.deep_view(),
                av.len() == total,
                out.deep_view() == bubble_items(av, i as nat),
            decreases total - i,
        {
            assert(av[i as int] == a@[i as int].deep_view());
            if let Some(t) = read_tuple(&a[i], 2) {
                let size = read_size(&a[i]);
                push_deep(&mut out, Bubble { point: t, size });
            }
            i = i + 1;
        }
    }
    out
}

} // verus!
