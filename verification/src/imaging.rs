//! What is asked of an image: how it is sampled, turned, converted and encoded, which
//! images go together, where texts and points stand, and noise that a seed decides.

use crate::chart::opt_num;
use crate::color::Pixel;
use crate::raster::{Image, Picture};
use crate::text::{ascii_lower, ascii_upper, copy_text, lower, same, split, split_text, upper};
use crate::value::{
    add_member, as_array, as_i64, as_text, as_u64, field, lemma_array_view, object, text_value,
    Json, Num, Number, Value,
};
use vstd::prelude::*;

verus! {

// ── options ─────────────────────────────────────────────────────────────────

/// How an image is sampled where its size changes.
#[derive(Clone, Copy, PartialEq, Eq, Structural)]
pub enum Sampling {
    Nearest,
    Triangle,
    CatmullRom,
    Gaussian,
    Lanczos3,
}

/// A text under a key, or a default.
pub open spec fn text_or(opts: Json, key: Seq<char>, default: Seq<char>) -> Seq<char> {
    match as_text(field(opts, key)) {
        Some(s) => s,
        None => default,
    }
}

pub open spec fn sampling_of(opts: Json) -> Sampling {
    let f = text_or(opts, "filter"@, "lanczos3"@);
    if f == "nearest"@ {
        Sampling::Nearest
    } else if f == "triangle"@ || f == "bilinear"@ {
        Sampling::Triangle
    } else if f == "catmullrom"@ || f == "bicubic"@ {
        Sampling::CatmullRom
    } else if f == "gaussian"@ {
        Sampling::Gaussian
    } else {
        Sampling::Lanczos3
    }
}

fn read_text_or<'a>(opts: &'a Value, key: &str, default: &'a str) -> (r: &'a str)
    ensures
        r@ == text_or(opts.deep_view(), key@, default@),
{
    match opts.text_at(key) {
        Some(s) => s,
        None => default,
    }
}

pub fn filter_of(opts: &Value) -> (r: Sampling)
    ensures
        r == sampling_of(opts.deep_view()),
{
    let f = read_text_or(opts, "filter", "lanczos3");
    if same(f, "nearest") {
        Sampling::Nearest
    } else if same(f, "triangle") || same(f, "bilinear") {
        Sampling::Triangle
    } else if same(f, "catmullrom") || same(f, "bicubic") {
        Sampling::CatmullRom
    } else if same(f, "gaussian") {
        Sampling::Gaussian
    } else {
        Sampling::Lanczos3
    }
}

/// How an image is turned.
#[derive(Clone, Copy, PartialEq, Eq, Structural)]
pub enum Turn {
    Still,
    Quarter,
    Half,
    ThreeQuarters,
    Degrees(i64),
}

/// The turn by a number of degrees, of which whole turns do not count.
pub open spec fn turn_by(degrees: int) -> Turn {
    let d = degrees % 360;
    if d == 0 {
        Turn::Still
    } else if d == 90 {
        Turn::Quarter
    } else if d == 180 {
        Turn::Half
    } else if d == 270 {
        Turn::ThreeQuarters
    } else {
        Turn::Degrees(d as i64)
    }
}

/// The turn that is asked for; a quarter where nothing is said.
pub fn op_img_rotate(opts: &Value) -> (r: Turn)
    ensures
        r == turn_by(
            match as_i64(field(opts.deep_view(), "degrees"@)) {
                Some(d) => d as int,
                None => 90,
            },
        ),
{
    let asked: i64 = match opts.i64_at("degrees") {
        Some(d) => d,
        None => 90,
    };
    let shifted: i128 = asked as i128 + 360 * 0x1_0000_0000_0000_0000;
    let d: i64 = (shifted % 360) as i64;
    assert((asked + 360 * 0x1_0000_0000_0000_0000) % 360 == asked as int % 360);
    if d == 0 {
        Turn::Still
    } else if d == 90 {
        Turn::Quarter
    } else if d == 180 {
        Turn::Half
    } else if d == 270 {
        Turn::ThreeQuarters
    } else {
        Turn::Degrees(d)
    }
}

/// Whole turns change nothing.
pub proof fn whole_turns_do_not_count(degrees: int, turns: int)
    ensures
        turn_by(degrees + 360 * turns) == turn_by(degrees),
{
    assert((degrees + 360 * turns) % 360 == degrees % 360);
}

/// Whether an image is flipped top to bottom; side to side where nothing is said.
pub fn op_img_flip(opts: &Value) -> (vertical: bool)
    ensures
        vertical == ({
            let d = text_or(opts.deep_view(), "dir"@, "h"@);
            d == "v"@ || d == "vertical"@
        }),
{
    let d = read_text_or(opts, "dir", "h");
    same(d, "v") || same(d, "vertical")
}

/// What the pixels of an image are made of.
#[derive(Clone, Copy, PartialEq, Eq, Structural)]
pub enum Channels {
    Gray,
    GrayAlpha,
    Rgb,
    Rgba,
}

pub open spec fn mode_name(c: Channels) -> Seq<char> {
    match c {
        Channels::Gray => "L"@,
        Channels::GrayAlpha => "LA"@,
        Channels::Rgb => "RGB"@,
        Channels::Rgba => "RGBA"@,
    }
}

pub fn mode_of(c: Channels) -> (r: &'static str)
    ensures
        r@ == mode_name(c),
{
    match c {
        Channels::Gray => "L",
        Channels::GrayAlpha => "LA",
        Channels::Rgb => "RGB",
        Channels::Rgba => "RGBA",
    }
}

/// The channels that a mode asks for, in letters of either case.
pub open spec fn channels_of(mode: Seq<char>) -> Channels {
    let m = upper(mode);
    if m == "L"@ || m == "GRAY"@ || m == "GRAYSCALE"@ {
        Channels::Gray
    } else if m == "LA"@ {
        Channels::GrayAlpha
    } else if m == "RGB"@ {
        Channels::Rgb
    } else {
        Channels::Rgba
    }
}

/// The channels that an image is converted to.
pub fn op_img_convert(opts: &Value) -> (r: Channels)
    ensures
        r == channels_of(text_or(opts.deep_view(), "mode"@, "RGBA"@)),
{
    let m = ascii_upper(read_text_or(opts, "mode", "RGBA"));
    if same(m.as_str(), "L") || same(m.as_str(), "GRAY") || same(m.as_str(), "GRAYSCALE") {
        Channels::Gray
    } else if same(m.as_str(), "LA") {
        Channels::GrayAlpha
    } else if same(m.as_str(), "RGB") {
        Channels::Rgb
    } else {
        Channels::Rgba
    }
}

/// What is said of an image: its handle, its size and its mode.
pub open spec fn image_facts(h: u64, w: u32, height: u32, c: Channels) -> Json {
    Json::Object(
        seq![
            ("handle"@, Json::Number(Num::Unsigned(h))),
            ("width"@, Json::Number(Num::Unsigned(w as u64))),
            ("height"@, Json::Number(Num::Unsigned(height as u64))),
            ("mode"@, Json::Text(mode_name(c))),
        ],
    )
}

pub fn info_json(h: u64, w: u32, height: u32, c: Channels) -> (r: Value)
    ensures
        r.deep_view() == image_facts(h, w, height, c),
{
    let mut o: Vec<(String, Value)> = Vec::new();
    add_member(&mut o, "handle", Value::Number(Number::Unsigned(h)));
    add_member(&mut o, "width", Value::Number(Number::Unsigned(w as u64)));
    add_member(&mut o, "height", Value::Number(Number::Unsigned(height as u64)));
    add_member(&mut o, "mode", text_value(mode_of(c)));
    assert(o.deep_view() =~= (image_facts(h, w, height, c)->Object_0));
    object(o)
}

/// A way to write an image as bytes.
#[derive(Clone, Copy, PartialEq, Eq, Structural)]
pub enum Encoding {
    Png,
    Jpeg,
    Gif,
    Bmp,
    WebP,
    Tiff,
}

/// The encoding that a name stands for.
pub open spec fn encoding_of(name: Seq<char>) -> Encoding {
    if name == "jpg"@ || name == "jpeg"@ {
        Encoding::Jpeg
    } else if name == "gif"@ {
        Encoding::Gif
    } else if name == "bmp"@ {
        Encoding::Bmp
    } else if name == "webp"@ {
        Encoding::WebP
    } else if name == "tif"@ || name == "tiff"@ {
        Encoding::Tiff
    } else {
        Encoding::Png
    }
}

/// The encoding that is asked for, and its name in ASCII lower case.
pub fn read_encoding(opts: &Value) -> (r: (String, Encoding))
    ensures
        r.0@ == lower(text_or(opts.deep_view(), "format"@, "png"@)),
        r.1 == encoding_of(r.0@),
{
    let f = ascii_lower(read_text_or(opts, "format", "png"));
    let e = if same(f.as_str(), "jpg") || same(f.as_str(), "jpeg") {
        Encoding::Jpeg
    } else if same(f.as_str(), "gif") {
        Encoding::Gif
    } else if same(f.as_str(), "bmp") {
        Encoding::Bmp
    } else if same(f.as_str(), "webp") {
        Encoding::WebP
    } else if same(f.as_str(), "tif") || same(f.as_str(), "tiff") {
        Encoding::Tiff
    } else {
        Encoding::Png
    };
    (f, e)
}

/// A whole number under a key, brought between two bounds; a default where there is none.
pub open spec fn bounded_at(opts: Json, key: Seq<char>, default: u64, lo: u64, hi: u64) -> u64 {
    match as_u64(field(opts, key)) {
        Some(n) => if n < lo {
            lo
        } else if n > hi {
            hi
        } else {
            n
        },
        None => default,
    }
}

pub fn read_bounded(opts: &Value, key: &str, default: u64, lo: u64, hi: u64) -> (n: u64)
    ensures
        n == bounded_at(opts.deep_view(), key@, default, lo, hi),
{
    match opts.u64_at(key) {
        Some(n) => if n < lo {
            lo
        } else if n > hi {
            hi
        } else {
            n
        },
        None => default,
    }
}

/// A side of a picture in blocks: one at the least.
pub open spec fn blocks_of_side(n: u32, block: u32) -> int {
    if n / block < 1 {
        1
    } else {
        (n / block) as int
    }
}

/// The size that a picture is shrunk to so that each pixel stands for a block.
pub fn pixelated_size(w: u32, h: u32, block: u32) -> (r: (u32, u32))
    requires
        block > 0,
    ensures
        r.0 == blocks_of_side(w, block),
        r.1 == blocks_of_side(h, block),
{
    let (across, down) = (w / block, h / block);
    (
        if across < 1 {
            1
        } else {
            across
        },
        if down < 1 {
            1
        } else {
            down
        },
    )
}

// ── images that go together ─────────────────────────────────────────────────

/// The whole numbers among the first `n` values.
pub open spec fn whole_items(a: Seq<Json>, n: nat) -> Seq<u64>
    decreases n,
{
    if n == 0 || n > a.len() {
        Seq::empty()
    } else {
        let before = whole_items(a, (n - 1) as nat);
        match as_u64(Some(a[n - 1])) {
            Some(u) => before.push(u),
            None => before,
        }
    }
}

fn read_whole_items(a: &Vec<Value>) -> (r: Vec<u64>)
    ensures
        r@ == whole_items(a.deep_view(), a@.len()),
{
    let ghost av = a.deep_view();
    let total: usize = a.len();
    assert(av.len() == total);
    let mut out: Vec<u64> = Vec::new();
    let mut i: usize = 0;
    while i < total
        invariant
            i <= total,
            total == a@.len(),
            av == a.deep_view(),
            av.len() == total,
            out@ == whole_items(av, i as nat),
        decreases total - i,
    {
        assert(av[i as int] == a@[i as int].deep_view());
        if let Some(u) = a[i].as_u64() {
            out.push(u);
        }
        i = i + 1;
    }
    out
}

/// The handles that are listed, or the complaint that there are none.
pub open spec fn handles_of(opts: Json, none: Seq<char>) -> Result<Seq<u64>, Seq<char>> {
    match as_array(field(opts, "handles"@)) {
        Some(a) => if whole_items(a, a.len()).len() == 0 {
            Err(none)
        } else {
            Ok(whole_items(a, a.len()))
        },
        None => Err("missing handles (expected array)"@),
    }
}

pub open spec fn res_handles(r: Result<Vec<u64>, String>) -> Result<Seq<u64>, Seq<char>> {
    match r {
        Ok(v) => Ok(v@),
        Err(e) => Err(e@),
    }
}

/// The handles that are listed; `none` is said where there are none.
pub fn read_handles(opts: &Value, none: &str) -> (r: Result<Vec<u64>, String>)
    ensures
        res_handles(r) == handles_of(opts.deep_view(), none@),
{
    match opts.array_at("handles") {
        Some(a) => {
            assert(a.deep_view().len() == a@.len());
            let hs = read_whole_items(a);
            if hs.len() == 0 {
                Err(copy_text(none))
            } else {
                Ok(hs)
            }
        },
        None => Err(copy_text("missing handles (expected array)")),
    }
}

/// How long frame `i` of an animation is shown, in milliseconds.
pub open spec fn delay_of(opts: Json, i: int) -> u32 {
    let own = match as_array(field(opts, "delays"@)) {
        Some(a) => whole_items(a, a.len()),
        None => Seq::empty(),
    };
    let all = match as_u64(field(opts, "delay"@)) {
        Some(d) => d,
        None => 100,
    };
    ((if i < own.len() {
        own[i]
    } else {
        all
    }) % 0x1_0000_0000) as u32
}

/// How often an animation is shown: a number of times, or without end.
pub open spec fn repeats_of(opts: Json) -> Option<u16> {
    match field(opts, "repeat"@) {
        Some(Json::Number(n)) => match n {
            Num::Unsigned(u) => Some((u % 0x1_0000) as u16),
            _ => Some(0),
        },
        _ => None,
    }
}

/// How an animation of `n` frames is shown.
pub fn op_img_save_animated(opts: &Value, n: usize) -> (r: (Vec<u32>, Option<u16>))
    ensures
        r.0@ == Seq::new(n as nat, |i: int| delay_of(opts.deep_view(), i)),
        r.1 == repeats_of(opts.deep_view()),
{
    let own: Vec<u64> = match opts.array_at("delays") {
        Some(a) => {
            assert(a.deep_view().len() == a@.len());
            read_whole_items(a)
        },
        None => Vec::new(),
    };
    let all: u64 = match opts.u64_at("delay") {
        Some(d) => d,
        None => 100,
    };
    let ghost want = Seq::new(n as nat, |i: int| delay_of(opts.deep_view(), i));
    let mut delays: Vec<u32> = Vec::new();
    let mut i: usize = 0;
    while i < n
        invariant
            i <= n,
            want == Seq::new(n as nat, |i: int| delay_of(opts.deep_view(), i)),
            own@ == (match as_array(field(opts.deep_view(), "delays"@)) {
                Some(a) => whole_items(a, a.len()),
                None => Seq::empty(),
            }),
            all == (match as_u64(field(opts.deep_view(), "delay"@)) {
                Some(d) => d,
                None => 100,
            }),
            delays@ == want.take(i as int),
        decreases n - i,
    {
        let d: u64 = if i < own.len() {
            own[i]
        } else {
            all
        };
        delays.push((d % 0x1_0000_0000) as u32);
        i = i + 1;
        assert(delays@ =~= want.take(i as int));
    }
    assert(want.take(i as int) =~= want);
    let repeats: Option<u16> = match opts.get("repeat") {
        Some(Value::Number(m)) => match m {
            Number::Unsigned(u) => Some((*u % 0x1_0000) as u16),
            _ => Some(0),
        },
        _ => None,
    };
    (delays, repeats)
}

// ── points ──────────────────────────────────────────────────────────────────

/// A whole number in 32 signed bits.
pub open spec fn in_i32(n: int) -> int {
    let m = n % 0x1_0000_0000;
    if m >= 0x8000_0000 {
        m - 0x1_0000_0000
    } else {
        m
    }
}

fn low_32(n: i64) -> (r: i32)
    ensures
        r == in_i32(n as int),
{
    let m: i128 = (n as i128 + 0x1_0000_0000 * 0x1_0000_0000) % 0x1_0000_0000;
    assert((n + 0x1_0000_0000 * 0x1_0000_0000) % 0x1_0000_0000 == n as int % 0x1_0000_0000);
    if m >= 0x8000_0000 {
        (m - 0x1_0000_0000) as i32
    } else {
        m as i32
    }
}

/// The point that a value stands for: two whole numbers at the start of a list.
pub open spec fn point_of(j: Json) -> Option<(int, int)> {
    match j {
        Json::Array(a) => if a.len() >= 2 {
            match (as_i64(Some(a[0])), as_i64(Some(a[1]))) {
                (Some(x), Some(y)) => Some((in_i32(x as int), in_i32(y as int))),
                _ => None,
            }
        } else {
            None
        },
        _ => None,
    }
}

fn read_point(v: &Value) -> (r: Option<(i32, i32)>)
    ensures
        match r {
            Some(p) => point_of(v.deep_view()) == Some((p.0 as int, p.1 as int)),
            None => point_of(v.deep_view()) is None,
        },
{
    match v {
        Value::Array(a) => {
            proof {
                lemma_array_view(a);
            }
            assert(a.deep_view().len() == a@.len());
            if a.len() < 2 {
                return None;
            }
            assert(a.deep_view()[0] == a@[0].deep_view());
            assert(a.deep_view()[1] == a@[1].deep_view());
            match (a[0].as_i64(), a[1].as_i64()) {
                (Some(x), Some(y)) => Some((low_32(x), low_32(y))),
                _ => None,
            }
        },
        _ => None,
    }
}

pub open spec fn points_view(ps: Seq<(i32, i32)>) -> Seq<(int, int)> {
    Seq::new(ps.len(), |i: int| (ps[i].0 as int, ps[i].1 as int))
}

/// The points among the first `n` values.
pub open spec fn point_items(a: Seq<Json>, n: nat) -> Seq<(int, int)>
    decreases n,
{
    if n == 0 || n > a.len() {
        Seq::empty()
    } else {
        let before = point_items(a, (n - 1) as nat);
        match point_of(a[n - 1]) {
            Some(p) => before.push(p),
            None => before,
        }
    }
}

/// The corners of a polygon: its points, without the last one where that is the first
/// again.
pub open spec fn corners_of(opts: Json) -> Result<Seq<(int, int)>, Seq<char>> {
    match as_array(field(opts, "points"@)) {
        Some(a) => {
            let ps = point_items(a, a.len());
            if ps.len() < 3 {
                Err("polygon needs at least 3 points"@)
            } else if ps[0] == ps[ps.len() - 1] {
                Ok(ps.take(ps.len() - 1))
            } else {
                Ok(ps)
            }
        },
        None => Err("missing points (expected [[x,y],...])"@),
    }
}

/// The corners of a polygon.
pub fn op_img_draw_polygon(opts: &Value) -> (r: Result<Vec<(i32, i32)>, String>)
    ensures
        match r {
            Ok(ps) => corners_of(opts.deep_view()) == Ok::<Seq<(int, int)>, Seq<char>>(
                points_view(ps@),
            ),
            Err(e) => corners_of(opts.deep_view()) == Err::<Seq<(int, int)>, Seq<char>>(e@),
        },
{
    match opts.array_at("points") {
        Some(a) => {
            let ghost av = a.deep_view();
            let total: usize = a.len();
            assert(av.len() == total);
            let mut out: Vec<(i32, i32)> = Vec::new();
            assert(points_view(out@) =~= Seq::<(int, int)>::empty());
            let mut i: usize = 0;
            while i < total
                invariant
                    i <= total,
                    total == a@.len(),
                    av == a.deep_view(),
                    av.len() == total,
                    points_view(out@) == point_items(av, i as nat),
                decreases total - i,
            {
                assert(av[i as int] == a@[i as int].deep_view());
                let ghost was = out@;
                if let Some(p) = read_point(&a[i]) {
                    out.push(p);
                    assert(points_view(out@) =~= points_view(was).push((p.0 as int, p.1 as int)));
                }
                i = i + 1;
            }
            let ghost ps = points_view(out@);
            assert(ps.len() == out@.len());
            if out.len() < 3 {
                return Err(copy_text("polygon needs at least 3 points"));
            }
            let last: usize = out.len() - 1;
            assert(ps[0] == (out@[0].0 as int, out@[0].1 as int));
            assert(ps[last as int] == (out@[last as int].0 as int, out@[last as int].1 as int));
            if out[0].0 == out[last].0 && out[0].1 == out[last].1 {
                let ghost was = out@;
                out.pop();
                assert(points_view(out@) =~= ps.take(ps.len() - 1));
            }
            Ok(out)
        },
        None => Err(copy_text("missing points (expected [[x,y],...])")),
    }
}

/// The first nine items of a list as numbers, `None` for what is none; or the complaint
/// that there are not nine.
pub open spec fn nine_of(opts: Json, key: Seq<char>) -> Result<Seq<Option<Num>>, Seq<char>> {
    match as_array(field(opts, key)) {
        Some(a) => if a.len() < 9 {
            Err(key + " must have 9 numbers"@)
        } else {
            Ok(
                Seq::new(
                    9,
                    |i: int|
                        match a[i] {
                            Json::Number(n) => Some(n),
                            _ => None,
                        },
                ),
            )
        },
        None => Err("missing "@ + key + " (expected 9 numbers)"@),
    }
}

pub open spec fn opt_nums(s: Seq<Option<Number>>) -> Seq<Option<Num>> {
    Seq::new(s.len(), |i: int| opt_num(s[i]))
}

/// The nine numbers of a kernel, or of a matrix.
pub fn read_nine(opts: &Value, key: &str) -> (r: Result<Vec<Option<Number>>, String>)
    ensures
        match r {
            Ok(v) => nine_of(opts.deep_view(), key@) == Ok::<Seq<Option<Num>>, Seq<char>>(
                opt_nums(v@),
            ),
            Err(e) => nine_of(opts.deep_view(), key@) == Err::<Seq<Option<Num>>, Seq<char>>(e@),
        },
{
    match opts.array_at(key) {
        Some(a) => {
            let ghost av = a.deep_view();
            assert(av.len() == a@.len());
            if a.len() < 9 {
                return Err(crate::text::concat2(key, " must have 9 numbers"));
            }
            let ghost want = Seq::new(
                9,
                |i: int|
                    match av[i] {
                        Json::Number(n) => Some(n),
                        _ => None,
                    },
            );
            let mut out: Vec<Option<Number>> = Vec::new();
            assert(opt_nums(out@) =~= want.take(0));
            let mut i: usize = 0;
            while i < 9
                invariant
                    i <= 9,
                    9 <= a@.len(),
                    av == a.deep_view(),
                    av.len() == a@.len(),
                    want == Seq::new(
                        9,
                        |i: int|
                            match av[i] {
                                Json::Number(n) => Some(n),
                                _ => None,
                            },
                    ),
                    opt_nums(out@) == want.take(i as int),
                decreases 9 - i,
            {
                assert(av[i as int] == a@[i as int].deep_view());
                let ghost was = out@;
                let n: Option<Number> = match &a[i] {
                    Value::Number(n) => Some(n.dup()),
                    _ => None,
                };
                assert(opt_num(n) == want[i as int]);
                out.push(n);
                assert(opt_nums(out@) =~= opt_nums(was).push(want[i as int]));
                i = i + 1;
                assert(opt_nums(out@) =~= want.take(i as int));
            }
            assert(want.take(9) =~= want);
            Ok(out)
        },
        None => Err(crate::text::concat3("missing ", key, " (expected 9 numbers)")),
    }
}

/// The lines of a text, and how far down each one starts.
pub fn op_img_draw_text_multiline(text: &str, y: i32, line_height: i32) -> (r: Vec<(String, i32)>)
    ensures
        r@.len() == split(text@, '\n').len(),
        forall|i: int|
            0 <= i < r@.len() ==> (#[trigger] r@[i]).0@ == split(text@, '\n')[i] && r@[i].1
                == in_i32(y + i * line_height),
{
    let parts = split_text(text, '\n');
    let ghost want = split(text@, '\n');
    assert(parts.deep_view().len() == parts@.len());
    let mut out: Vec<(String, i32)> = Vec::new();
    let mut i: usize = 0;
    while i < parts.len()
        invariant
            i <= parts@.len(),
            want == split(text@, '\n'),
            parts.deep_view() == want,
            parts.deep_view().len() == parts@.len(),
            out@.len() == i,
            forall|k: int|
                0 <= k < i ==> (#[trigger] out@[k]).0@ == want[k] && out@[k].1 == in_i32(
                    y + k * line_height,
                ),
        decreases parts@.len() - i,
    {
        assert(parts.deep_view()[i as int] == parts@[i as int]@);
        let at = line_start(y, i, line_height);
        out.push((copy_text(parts[i].as_str()), at));
        i = i + 1;
    }
    out
}

fn line_start(y: i32, i: usize, line_height: i32) -> (r: i32)
    ensures
        r == in_i32(y + i * line_height),
{
    let k: i128 = (i as u64) as i128;
    assert(-0x1_0000_0000_0000_0000 * 0x8000_0000 <= k * line_height <= 0x1_0000_0000_0000_0000
        * 0x8000_0000) by (nonlinear_arith)
        requires
            0 <= k <= 0xffff_ffff_ffff_ffff,
            -0x8000_0000 <= line_height <= 0x7fff_ffff,
    ;
    let at: i128 = y as i128 + k * line_height as i128;
    let lift: i128 = 0x1_0000_0000 * 0x1_0000_0000_0000_0000;
    let m: i128 = (at + lift) % 0x1_0000_0000;
    assert((at + lift) % 0x1_0000_0000 == at as int % 0x1_0000_0000) by {
        assert(lift == 0x1_0000_0000_0000_0000 * 0x1_0000_0000);
    }
    if m >= 0x8000_0000 {
        (m - 0x1_0000_0000) as i32
    } else {
        m as i32
    }
}

// ── watermarks ──────────────────────────────────────────────────────────────

/// The columns, from `x` on, at which a text stands again and again.
pub open spec fn stamps_across(x: int, w: int, gap: int) -> Seq<int>
    decreases w + gap - x,
{
    if x >= w || gap <= 0 {
        Seq::empty()
    } else {
        seq![x] + stamps_across(x + gap, w, gap)
    }
}

/// The positions, from row `y` on, of the texts of a watermark: every other row is moved
/// by half a gap.
pub open spec fn stamps(y: int, moved: bool, w: int, h: int, gap: int) -> Seq<(int, int)>
    decreases h + gap - y,
{
    if y >= h || gap < 2 {
        Seq::empty()
    } else {
        let across = stamps_across(
            if moved {
                -(gap / 2)
            } else {
                0
            },
            w,
            gap,
        );
        Seq::new(across.len(), |i: int| (across[i], y)) + stamps(y + gap / 2, !moved, w, h, gap)
    }
}

pub open spec fn places_view(ps: Seq<(i64, i64)>) -> Seq<(int, int)> {
    Seq::new(ps.len(), |i: int| (ps[i].0 as int, ps[i].1 as int))
}

/// Where the texts of a watermark stand.
pub fn op_img_watermark(w: u32, h: u32, gap: u32) -> (r: Vec<(i64, i64)>)
    requires
        gap >= 2,
    ensures
        places_view(r@) == stamps(0, false, w as int, h as int, gap as int),
{
    let g: i64 = gap as i64;
    let mut out: Vec<(i64, i64)> = Vec::new();
    let mut y: i64 = 0;
    let mut moved = false;
    let ghost all = stamps(0, false, w as int, h as int, gap as int);
    assert(all =~= places_view(out@) + all);
    while y < h as i64
        invariant
            g == gap,
            gap >= 2,
            0 <= y <= 0x2_0000_0000,
            all == places_view(out@) + stamps(y as int, moved, w as int, h as int, gap as int),
        decreases h + g - y,
    {
        let first: i64 = if moved {
            -(g / 2)
        } else {
            0
        };
        let ghost across = stamps_across(first as int, w as int, gap as int);
        let ghost before = out@;
        let mut x: i64 = first;
        let ghost mut k: int = 0;
        assert(across.skip(0) =~= across);
        while x < w as i64
            invariant
                g == gap,
                gap >= 2,
                -0x1_0000_0000 <= x <= 0x2_0000_0000,
                0 <= y <= 0x2_0000_0000,
                0 <= k <= across.len(),
                across.skip(k) == stamps_across(x as int, w as int, gap as int),
                places_view(out@) == places_view(before) + Seq::new(
                    k as nat,
                    |i: int| (across[i], y as int),
                ),
            decreases w + g - x,
        {
            let ghost was = out@;
            assert(across.skip(k).len() > 0);
            assert(k < across.len());
            assert(across.skip(k)[0] == x);
            assert(across[k] == x);
            out.push((x, y));
            assert(places_view(out@) =~= places_view(was).push((x as int, y as int)));
            proof {
                let rest = stamps_across(x + g, w as int, gap as int);
                assert(across.skip(k) == seq![x as int] + rest);
                assert(across.skip(k + 1) =~= across.skip(k).skip(1));
                assert((seq![x as int] + rest).skip(1) =~= rest);
                k = k + 1;
            }
            x = x + g;
            assert(places_view(out@) =~= places_view(before) + Seq::new(
                k as nat,
                |i: int| (across[i], y as int),
            ));
        }
        proof {
            assert(across.skip(k).len() == 0);
            assert(k == across.len());
            let row = Seq::new(across.len(), |i: int| (across[i], y as int));
            let rest = stamps(y + g / 2, !moved, w as int, h as int, gap as int);
            assert(places_view(out@) =~= places_view(before) + row);
            assert(all =~= places_view(out@) + rest);
        }
        y = y + g / 2;
        moved = !moved;
    }
    assert(all =~= places_view(out@));
    out
}

// ── noise ───────────────────────────────────────────────────────────────────

/// The state of the generator that comes after one.
pub open spec fn next_state(s: u64) -> u64 {
    ((s * 6364136223846793005 + 1442695040888963407) % 0x1_0000_0000_0000_0000) as u64
}

/// The 53 bits that a state gives.
pub open spec fn draw_of(s: u64) -> u64 {
    (s as int / 2048) as u64
}

/// A generator of numbers that a seed decides.
pub struct Lcg {
    pub state: u64,
}

impl Lcg {
    /// The generator of a seed.
    pub fn new(seed: u64) -> (r: Self)
        ensures
            r.state == ((seed + 0x9E37_79B9_7F4A_7C15) % 0x1_0000_0000_0000_0000) as u64,
    {
        let s: u128 = seed as u128 + 0x9E37_79B9_7F4A_7C15;
        Lcg { state: (s % 0x1_0000_0000_0000_0000) as u64 }
    }

    /// The next number, below two to the power of 53.
    pub fn next_draw(&mut self) -> (n: u64)
        ensures
            final(self).state == next_state(old(self).state),
            n == draw_of(final(self).state),
            n < 0x20_0000_0000_0000,
    {
        let s = self.state;
        assert(0 <= s * 6364136223846793005 <= 0xffff_ffff_ffff_ffff * 6364136223846793005)
            by (nonlinear_arith)
            requires
                0 <= s <= 0xffff_ffff_ffff_ffff,
        ;
        let wide: u128 = s as u128 * 6364136223846793005 + 1442695040888963407;
        self.state = (wide % 0x1_0000_0000_0000_0000) as u64;
        self.state / 2048
    }
}

/// The first `n` pixels of a row with some of them made black or white, and the state of
/// the generator behind them. A pixel is hit where the draw lies below `limit`; a second
/// draw decides whether it turns black.
pub open spec fn peppered_row(row: Seq<Pixel>, s: u64, limit: u64, n: nat) -> (Seq<Pixel>, u64)
    decreases n,
{
    if n == 0 || n > row.len() {
        (Seq::empty(), s)
    } else {
        let (done, at) = peppered_row(row, s, limit, (n - 1) as nat);
        let p = row[n - 1];
        let one = next_state(at);
        if draw_of(one) < limit {
            let two = next_state(one);
            let v: u8 = if draw_of(two) < 0x10_0000_0000_0000 {
                0
            } else {
                255
            };
            (done.push(Pixel { r: v, g: v, b: v, a: p.a }), two)
        } else {
            (done.push(p), one)
        }
    }
}

/// The first `n` rows of a picture with some pixels made black or white.
pub open spec fn peppered(p: Picture, s: u64, limit: u64, n: nat) -> (Picture, u64)
    decreases n,
{
    if n == 0 || n > p.len() {
        (Seq::empty(), s)
    } else {
        let (done, at) = peppered(p, s, limit, (n - 1) as nat);
        let (row, last) = peppered_row(p[n - 1], at, limit, p[n - 1].len());
        (done.push(row), last)
    }
}

proof fn lemma_peppered_row(row: Seq<Pixel>, s: u64, limit: u64, n: nat)
    requires
        n <= row.len(),
    ensures
        peppered_row(row, s, limit, n).0.len() == n,
    decreases n,
{
    if n > 0 {
        lemma_peppered_row(row, s, limit, (n - 1) as nat);
    }
}

/// Makes pixels of an image black or white, as a seed decides. One is hit where a draw of
/// 53 bits lies below `limit`.
pub fn op_img_noise(img: &Image, seed: u64, limit: u64) -> (r: Image)
    requires
        img.wf(),
    ensures
        r.wf(),
        r.width == img.width,
        r@ == peppered(
            img@,
            ((seed + 0x9E37_79B9_7F4A_7C15) % 0x1_0000_0000_0000_0000) as u64,
            limit,
            img@.len(),
        ).0,
{
    let mut rng = Lcg::new(seed);
    let ghost start = rng.state;
    let h: usize = img.rows.len();
    let mut rows: Vec<Vec<Pixel>> = Vec::new();
    let mut y: usize = 0;
    assert(crate::raster::rows_of(rows@) =~= peppered(img@, start, limit, 0).0);
    while y < h
        invariant
            y <= h,
            h == img.rows@.len(),
            img.wf(),
            crate::raster::rows_of(rows@) == peppered(img@, start, limit, y as nat).0,
            rng.state == peppered(img@, start, limit, y as nat).1,
            rows@.len() == y,
            forall|k: int| 0 <= k < y ==> (#[trigger] rows@[k])@.len() == img.width,
        decreases h - y,
    {
        let ghost before = rng.state;
        let ghost line = img@[y as int];
        let mut row: Vec<Pixel> = Vec::new();
        let mut x: usize = 0;
        while x < img.rows[y].len()
            invariant
                y < h,
                h == img.rows@.len(),
                line == img.rows@[y as int]@,
                x <= line.len(),
                row@ == peppered_row(line, before, limit, x as nat).0,
                rng.state == peppered_row(line, before, limit, x as nat).1,
            decreases line.len() - x,
        {
            let p = img.rows[y][x];
            let one = rng.next_draw();
            if one < limit {
                let two = rng.next_draw();
                let v: u8 = if two < 0x10_0000_0000_0000 {
                    0
                } else {
                    255
                };
                row.push(Pixel { r: v, g: v, b: v, a: p.a });
            } else {
                row.push(p);
            }
            x = x + 1;
        }
        proof {
            lemma_peppered_row(line, before, limit, line.len());
            assert(img.rows@[y as int]@.len() == img.width);
        }
        let ghost was = rows@;
        let ghost done = row@;
        rows.push(row);
        assert(crate::raster::rows_of(rows@) =~= crate::raster::rows_of(was).push(done));
        y = y + 1;
    }
    Image { width: img.width, rows }
}

proof fn lemma_unhit_row(row: Seq<Pixel>, s: u64, n: nat)
    requires
        n <= row.len(),
    ensures
        peppered_row(row, s, 0, n).0 == row.take(n as int),
    decreases n,
{
    if n > 0 {
        lemma_unhit_row(row, s, (n - 1) as nat);
        assert(row.take(n as int) =~= row.take(n - 1).push(row[n - 1]));
    } else {
        assert(row.take(0) =~= Seq::<Pixel>::empty());
    }
}

/// Noise of rate zero changes nothing.
pub proof fn no_noise_changes_nothing(p: Picture, s: u64, n: nat)
    requires
        n <= p.len(),
    ensures
        peppered(p, s, 0, n).0 == p.take(n as int),
    decreases n,
{
    if n > 0 {
        no_noise_changes_nothing(p, s, (n - 1) as nat);
        let at = peppered(p, s, 0, (n - 1) as nat).1;
        lemma_unhit_row(p[n - 1], at, p[n - 1].len());
        assert(p[n - 1].take(p[n - 1].len() as int) =~= p[n - 1]);
        assert(p.take(n as int) =~= p.take(n - 1).push(p[n - 1]));
    } else {
        assert(p.take(0) =~= Seq::<Seq<Pixel>>::empty());
    }
}

// ── what options and noise do ───────────────────────────────────────────────

/// A mode names its channels, in letters of either case.
pub proof fn modes_name_their_channels(c: Channels, mode: Seq<char>)
    requires
        upper(mode) == mode_name(c),
    ensures
        channels_of(mode) == c,
{
    reveal_strlit("L");
    reveal_strlit("LA");
    reveal_strlit("RGB");
    reveal_strlit("RGBA");
    reveal_strlit("GRAY");
    reveal_strlit("GRAYSCALE");
    assert("L"@.len() == 1);
    assert("LA"@.len() == 2);
    assert("RGB"@.len() == 3);
    assert("RGBA"@.len() == 4);
    assert("GRAYSCALE"@.len() == 9);
    assert("GRAY"@[0] == 'G');
    assert("RGBA"@[0] == 'R');
}

/// A turn goes by what is left of its degrees: none, one, two or three quarters have a turn of
/// their own, and a turn the other way is what is missing to a whole one.
pub proof fn turns_go_by_degrees(degrees: int)
    ensures
        turn_by(0) == Turn::Still,
        turn_by(90) == Turn::Quarter,
        turn_by(180) == Turn::Half,
        turn_by(270) == Turn::ThreeQuarters,
        turn_by(-90) == Turn::ThreeQuarters,
        turn_by(degrees) == Turn::Quarter <==> degrees % 360 == 90,
        turn_by(degrees) == Turn::Half <==> degrees % 360 == 180,
        turn_by(degrees) == Turn::ThreeQuarters <==> degrees % 360 == 270,
        turn_by(degrees) == Turn::Still <==> degrees % 360 == 0,
        turn_by(degrees) is Degrees ==> turn_by(degrees)->0 == degrees % 360,
{
}

/// Of a list the whole numbers are taken and the points, each in order, and nothing else.
pub proof fn lists_give_what_is_whole(a: Seq<Json>, n: nat)
    requires
        n <= a.len(),
    ensures
        whole_items(a, n) == a.take(n as int).filter(
            |j: Json| as_u64(Some(j)) is Some,
        ).map_values(|j: Json| as_u64(Some(j))->0),
        point_items(a, n) == a.take(n as int).filter(|j: Json| point_of(j) is Some).map_values(
            |j: Json| point_of(j)->0,
        ),
    decreases n,
{
    reveal(Seq::filter);
    let part = a.take(n as int);
    let is = |j: Json| as_u64(Some(j)) is Some;
    let get = |j: Json| as_u64(Some(j))->0;
    let is_point = |j: Json| point_of(j) is Some;
    let point = |j: Json| point_of(j)->0;
    if n > 0 {
        lists_give_what_is_whole(a, (n - 1) as nat);
        let last = a[n - 1];
        assert(part.drop_last() =~= a.take(n - 1));
        assert(part.last() == last);
        if is(last) {
            assert(part.filter(is).map_values(get) =~= part.drop_last().filter(is).map_values(
                get,
            ).push(get(last)));
        }
        if is_point(last) {
            assert(part.filter(is_point).map_values(point) =~= part.drop_last().filter(
                is_point,
            ).map_values(point).push(point(last)));
        }
    } else {
        assert(part.filter(is).map_values(get) =~= Seq::<u64>::empty());
        assert(part.filter(is_point).map_values(point) =~= Seq::<(int, int)>::empty());
    }
}

/// Whether noise left a pixel or made it black or white.
pub open spec fn is_left_or_hit(p: Pixel, q: Pixel) -> bool {
    ||| q == p
    ||| q == (Pixel { r: 0, g: 0, b: 0, a: p.a })
    ||| q == (Pixel { r: 255, g: 255, b: 255, a: p.a })
}

proof fn lemma_hit_in_row(row: Seq<Pixel>, s: u64, limit: u64, n: nat, x: int)
    requires
        n <= row.len(),
    ensures
        peppered_row(row, s, limit, n).0.len() == n,
        0 <= x < n ==> is_left_or_hit(row[x], peppered_row(row, s, limit, n).0[x]),
        0 <= x < n ==> (peppered_row(row, s, limit, n).0[x] != row[x] ==> draw_of(
            next_state(peppered_row(row, s, limit, x as nat).1),
        ) < limit),
    decreases n,
{
    if n > 0 {
        lemma_hit_in_row(row, s, limit, (n - 1) as nat, x);
        if x == n - 1 {
            lemma_hit_in_row(row, s, limit, (n - 1) as nat, 0);
        }
    }
}

/// Noise leaves each pixel or makes it black or white, and keeps how much of it shows.
pub proof fn noise_is_black_or_white(p: Picture, s: u64, limit: u64, n: nat, x: int, y: int)
    requires
        n <= p.len(),
        0 <= y < n,
        0 <= x < p[y].len(),
    ensures
        peppered(p, s, limit, n).0.len() == n,
        peppered(p, s, limit, n).0[y].len() == p[y].len(),
        is_left_or_hit(p[y][x], peppered(p, s, limit, n).0[y][x]),
    decreases n,
{
    lemma_hit_rows(p, s, limit, (n - 1) as nat);
    if y < n - 1 {
        noise_is_black_or_white(p, s, limit, (n - 1) as nat, x, y);
    } else {
        let at = peppered(p, s, limit, (n - 1) as nat).1;
        lemma_hit_in_row(p[y], at, limit, p[y].len(), x);
    }
}

proof fn lemma_hit_rows(p: Picture, s: u64, limit: u64, n: nat)
    requires
        n <= p.len(),
    ensures
        peppered(p, s, limit, n).0.len() == n,
    decreases n,
{
    if n > 0 {
        lemma_hit_rows(p, s, limit, (n - 1) as nat);
    }
}

/// The `m`th of steps of a length.
pub open spec fn stepped(from: int, step: int, m: nat) -> int {
    from + m * step
}

proof fn lemma_across(x: int, w: int, gap: int, v: int)
    requires
        gap > 0,
    ensures
        stamps_across(x, w, gap).contains(v) <==> v < w && exists|m: nat|
            v == #[trigger] stepped(x, gap, m),
    decreases w + gap - x,
{
    let all = stamps_across(x, w, gap);
    if x < w {
        let rest = stamps_across(x + gap, w, gap);
        lemma_across(x + gap, w, gap, v);
        if all.contains(v) {
            let i = choose|i: int| 0 <= i < all.len() && all[i] == v;
            if i == 0 {
                assert(v == stepped(x, gap, 0));
            } else {
                assert(rest[i - 1] == v);
                assert(rest.contains(v));
                let m = choose|m: nat| v == #[trigger] stepped(x + gap, gap, m);
                assert(x + gap + m * gap == x + (m + 1) * gap) by (nonlinear_arith);
                assert(v == stepped(x, gap, m + 1));
            }
        }
        if v < w && exists|m: nat| v == #[trigger] stepped(x, gap, m) {
            let m = choose|m: nat| v == #[trigger] stepped(x, gap, m);
            if m == 0 {
                assert(all[0] == v) by {
                    assert(m * gap == 0) by (nonlinear_arith)
                        requires
                            m == 0,
                    ;
                }
            } else {
                assert(x + gap + (m - 1) * gap == x + m * gap) by (nonlinear_arith);
                assert(v == stepped(x + gap, gap, (m - 1) as nat));
                let i = choose|i: int| 0 <= i < rest.len() && rest[i] == v;
                assert(all[i + 1] == v);
            }
        }
    } else {
        assert forall|m: nat| v == #[trigger] stepped(x, gap, m) implies v >= w by {
            assert(m * gap >= 0) by (nonlinear_arith)
                requires
                    gap > 0,
            ;
        }
    }
}

/// A watermark stands in each row that lies a number of half gaps from the top, at each column
/// that lies a number of gaps from the left; every other row is moved to the left by half a
/// gap.
pub proof fn watermarks_stand_in_turn(w: int, h: int, gap: int, x: int, y: int)
    requires
        gap >= 2,
    ensures
        stamps(0, false, w, h, gap).contains((x, y)) <==> x < w && y < h && exists|k: nat, m: nat|
            #![trigger stepped(0, gap / 2, k), stepped(0, gap, m)]
            y == stepped(0, gap / 2, k) && x == stepped(0, gap, m) - (if k % 2 == 1 {
                gap / 2
            } else {
                0
            }),
{
    lemma_stamps(0, false, w, h, gap, x, y);
    if stamps(0, false, w, h, gap).contains((x, y)) {
        let k = choose|k: nat| y == #[trigger] stepped(0, gap / 2, k) && on_row(false, k, gap, x);
        let from = row_start(false, k, gap);
        let m = choose|m: nat| x == #[trigger] stepped(from, gap, m);
        assert(x == stepped(0, gap, m) + from);
    }
    if x < w && y < h && exists|k: nat, m: nat|
        #![trigger stepped(0, gap / 2, k), stepped(0, gap, m)]
        y == stepped(0, gap / 2, k) && x == stepped(0, gap, m) - (if k % 2 == 1 {
            gap / 2
        } else {
            0
        }) {
        let (k, m) = choose|k: nat, m: nat|
            #![trigger stepped(0, gap / 2, k), stepped(0, gap, m)]
            y == stepped(0, gap / 2, k) && x == stepped(0, gap, m) - (if k % 2 == 1 {
                gap / 2
            } else {
                0
            });
        assert(x == stepped(row_start(false, k, gap), gap, m));
        assert(on_row(false, k, gap, x));
    }
}

spec fn row_start(moved: bool, k: nat, gap: int) -> int {
    if (k % 2 == 1) != moved {
        -(gap / 2)
    } else {
        0
    }
}

spec fn on_row(moved: bool, k: nat, gap: int, x: int) -> bool {
    exists|m: nat| x == #[trigger] stepped(row_start(moved, k, gap), gap, m)
}

proof fn lemma_stamps(from: int, moved: bool, w: int, h: int, gap: int, x: int, y: int)
    requires
        gap >= 2,
    ensures
        stamps(from, moved, w, h, gap).contains((x, y)) <==> x < w && y < h && exists|k: nat|
            y == #[trigger] stepped(from, gap / 2, k) && on_row(moved, k, gap, x),
    decreases h + gap - from,
{
    let half = gap / 2;
    let all = stamps(from, moved, w, h, gap);
    if from < h {
        let start = if moved {
            -(gap / 2)
        } else {
            0
        };
        let across = stamps_across(start, w, gap);
        let here = Seq::new(across.len(), |i: int| (across[i], from));
        let rest = stamps(from + half, !moved, w, h, gap);
        assert(all == here + rest);
        lemma_stamps(from + half, !moved, w, h, gap, x, y);
        lemma_across(start, w, gap, x);
        assert(row_start(moved, 0, gap) == start);
        if all.contains((x, y)) {
            let i = choose|i: int| 0 <= i < all.len() && all[i] == (x, y);
            if i < here.len() {
                assert(here[i] == (x, y));
                assert(across[i] == x);
                assert(across.contains(x));
                assert(y == stepped(from, half, 0));
                assert(on_row(moved, 0, gap, x));
            } else {
                assert(rest[i - here.len()] == (x, y));
                assert(rest.contains((x, y)));
                let k = choose|k: nat|
                    y == #[trigger] stepped(from + half, half, k) && on_row(!moved, k, gap, x);
                assert(from + half + k * half == from + (k + 1) * half) by (nonlinear_arith);
                assert(row_start(!moved, k, gap) == row_start(moved, k + 1, gap));
                assert(y == stepped(from, half, k + 1));
                assert(on_row(moved, k + 1, gap, x));
            }
        }
        if x < w && y < h && exists|k: nat|
            y == #[trigger] stepped(from, half, k) && on_row(moved, k, gap, x) {
            let k = choose|k: nat|
                y == #[trigger] stepped(from, half, k) && on_row(moved, k, gap, x);
            if k == 0 {
                assert(k * half == 0) by (nonlinear_arith)
                    requires
                        k == 0,
                ;
                let i = choose|i: int| 0 <= i < across.len() && across[i] == x;
                assert(all[i] == (x, y));
            } else {
                let j = (k - 1) as nat;
                assert(from + half + (k - 1) * half == from + k * half) by (nonlinear_arith);
                assert(row_start(!moved, j, gap) == row_start(moved, k, gap));
                assert(y == stepped(from + half, half, j));
                assert(on_row(!moved, j, gap, x));
                let i = choose|i: int| 0 <= i < rest.len() && rest[i] == (x, y);
                assert(all[here.len() + i] == (x, y));
            }
        }
    } else {
        assert forall|k: nat| y == #[trigger] stepped(from, half, k) implies y >= h by {
            assert(k * half >= 0) by (nonlinear_arith)
                requires
                    half >= 0,
            ;
        }
    }
}

} // verus!
