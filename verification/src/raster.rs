//! Images of pixels: what is done to them point by point, and how their points are
//! moved, counted and compared.

use crate::color::{luma, luma601, Pixel};
use crate::text::{chars_of, lower};
use vstd::prelude::*;

verus! {

/// An image: its width and its rows of pixels.
pub struct Image {
    pub width: u32,
    pub rows: Vec<Vec<Pixel>>,
}

/// What an [`Image`] stands for: its rows of pixels.
pub type Picture = Seq<Seq<Pixel>>;

pub open spec fn rows_of(rows: Seq<Vec<Pixel>>) -> Picture {
    Seq::new(rows.len(), |y: int| rows[y]@)
}

impl View for Image {
    type V = Picture;

    open spec fn view(&self) -> Picture {
        rows_of(self.rows@)
    }
}

impl Image {
    /// Whether every row is as long as the image is wide, and the height fits as the width
    /// does.
    pub open spec fn wf(&self) -> bool {
        &&& self.rows@.len() <= u32::MAX
        &&& forall|y: int| 0 <= y < self.rows@.len() ==> (#[trigger] self.rows@[y])@.len() == self.width
    }

    pub fn height(&self) -> (h: u32)
        requires
            self.wf(),
        ensures
            h == self@.len(),
    {
        self.rows.len() as u32
    }

    /// Whether rows make an image; rows of one length do.
    pub fn is_image(&self) -> (r: bool)
        ensures
            r == self.wf(),
    {
        if self.rows.len() > u32::MAX as usize {
            return false;
        }
        let mut y: usize = 0;
        while y < self.rows.len()
            invariant
                y <= self.rows@.len(),
                forall|k: int| 0 <= k < y ==> (#[trigger] self.rows@[k])@.len() == self.width,
            decreases self.rows@.len() - y,
        {
            if self.rows[y].len() != self.width as usize {
                assert(self.rows@[y as int]@.len() != self.width);
                return false;
            }
            y = y + 1;
        }
        true
    }
}

/// The picture of a size whose pixel at column `x` of row `y` is `g(x, y)`.
pub open spec fn picture(w: nat, h: nat, g: spec_fn(int, int) -> Pixel) -> Picture {
    Seq::new(h, |y: int| Seq::new(w, |x: int| g(x, y)))
}

pub(crate) fn build<F: Fn(usize, usize) -> Pixel>(
    w: u32,
    h: u32,
    f: &F,
    Ghost(g): Ghost<spec_fn(int, int) -> Pixel>,
) -> (r: Image)
    requires
        forall|x: usize, y: usize| x < w && y < h ==> #[trigger] f.requires((x, y)),
        forall|x: usize, y: usize, p: Pixel|
            x < w && y < h && #[trigger] f.ensures((x, y), p) ==> p == g(x as int, y as int),
    ensures
        r.wf(),
        r.width == w,
        r@ == picture(w as nat, h as nat, g),
{
    let ghost all = picture(w as nat, h as nat, g);
    let mut rows: Vec<Vec<Pixel>> = Vec::new();
    let mut y: usize = 0;
    while y < h as usize
        invariant
            y <= h,
            rows@.len() == y,
            all == picture(w as nat, h as nat, g),
            forall|k: int| 0 <= k < y ==> (#[trigger] rows@[k])@ == all[k],
            forall|x: usize, y: usize| x < w && y < h ==> #[trigger] f.requires((x, y)),
            forall|x: usize, y: usize, p: Pixel|
                x < w && y < h && #[trigger] f.ensures((x, y), p) ==> p == g(x as int, y as int),
        decreases h - y,
    {
        let mut row: Vec<Pixel> = Vec::new();
        let mut x: usize = 0;
        while x < w as usize
            invariant
                x <= w,
                y < h,
                row@.len() == x,
                forall|k: int| 0 <= k < x ==> row@[k] == g(k, y as int),
                forall|x: usize, y: usize| x < w && y < h ==> #[trigger] f.requires((x, y)),
                forall|x: usize, y: usize, p: Pixel|
                    x < w && y < h && #[trigger] f.ensures((x, y), p) ==> p == g(
                        x as int,
                        y as int,
                    ),
            decreases w - x,
        {
            let p = f(x, y);
            row.push(p);
            x = x + 1;
        }
        assert(row@ =~= all[y as int]);
        rows.push(row);
        y = y + 1;
    }
    let r = Image { width: w, rows };
    assert(r@ =~= all);
    r
}

/// A picture with each pixel put through `f`.
pub open spec fn mapped(p: Picture, f: spec_fn(Pixel) -> Pixel) -> Picture {
    Seq::new(p.len(), |y: int| Seq::new(p[y].len(), |x: int| f(p[y][x])))
}

pub(crate) fn pixel_map<F: Fn(Pixel) -> Pixel>(
    img: &Image,
    f: &F,
    Ghost(g): Ghost<spec_fn(Pixel) -> Pixel>,
) -> (r: Image)
    requires
        img.wf(),
        forall|p: Pixel| #[trigger] f.requires((p,)),
        forall|p: Pixel, q: Pixel| #[trigger] f.ensures((p,), q) ==> q == g(p),
    ensures
        r.wf(),
        r.width == img.width,
        r@ == mapped(img@, g),
{
    let h = img.height();
    let at = |x: usize, y: usize| -> (q: Pixel)
        requires
            x < img.width,
            y < img.rows@.len(),
            img.wf(),
            forall|p: Pixel| #[trigger] f.requires((p,)),
        ensures
            f.ensures((img.rows@[y as int]@[x as int],), q),
        {
            assert(img.rows@[y as int]@.len() == img.width);
            f(img.rows[y][x])
        };
    let ghost gg = |x: int, y: int| g(img.rows@[y]@[x]);
    let r = build(img.width, h, &at, Ghost(gg));
    proof {
        let m = mapped(img@, g);
        assert forall|y: int| 0 <= y < m.len() implies m[y] == r@[y] by {
            assert(img.rows@[y]@.len() == img.width);
            assert(m[y] =~= r@[y]);
        }
        assert(r@ =~= m);
    }
    r
}

// ── making and reading ──────────────────────────────────────────────────────

/// An image of one color.
pub fn solid(w: u32, h: u32, c: Pixel) -> (r: Image)
    ensures
        r.wf(),
        r.width == w,
        r@ == picture(w as nat, h as nat, |x: int, y: int| c),
{
    let f = |x: usize, y: usize| -> (p: Pixel)
        ensures
            p == c,
        { c };
    build(w, h, &f, Ghost(|x: int, y: int| c))
}

/// The pixel at a position, where it lies in the image.
pub open spec fn pixel_at(p: Picture, w: int, x: int, y: int) -> Option<Pixel> {
    if 0 <= x < w && 0 <= y < p.len() {
        Some(p[y][x])
    } else {
        None
    }
}

/// The pixel at a position, or the complaint that it lies outside.
pub fn op_img_get_pixel(img: &Image, x: u32, y: u32) -> (r: Result<Pixel, String>)
    requires
        img.wf(),
    ensures
        match pixel_at(img@, img.width as int, x as int, y as int) {
            Some(p) => r == Ok::<Pixel, String>(p),
            None => r is Err && r->Err_0@ == "pixel ("@ + crate::text::decimal(x as nat) + ","@
                + crate::text::decimal(y as nat) + ") out of bounds"@,
        },
{
    if x < img.width && (y as usize) < img.rows.len() {
        assert(img.rows@[y as int]@.len() == img.width);
        Ok(img.rows[y as usize][x as usize])
    } else {
        let mut s = crate::text::copy_text("pixel (");
        crate::text::push_decimal(&mut s, x as u64);
        s.push_str(",");
        crate::text::push_decimal(&mut s, y as u64);
        s.push_str(") out of bounds");
        Err(s)
    }
}

/// A picture with a pixel set, where the position lies in it.
pub open spec fn with_pixel(p: Picture, w: int, x: int, y: int, c: Pixel) -> Picture {
    if 0 <= x < w && 0 <= y < p.len() {
        p.update(y, p[y].update(x, c))
    } else {
        p
    }
}

/// Sets a pixel.
pub fn set_pixel(img: &mut Image, x: usize, y: usize, c: Pixel)
    requires
        old(img).wf(),
    ensures
        final(img).wf(),
        final(img).width == old(img).width,
        final(img)@ == with_pixel(old(img)@, old(img).width as int, x as int, y as int, c),
{
    if x < img.width as usize && y < img.rows.len() {
        assert(img.rows@[y as int]@.len() == img.width);
        let ghost was = img.rows@;
        img.rows[y][x] = c;
        proof {
            let want = with_pixel(rows_of(was), img.width as int, x as int, y as int, c);
            assert forall|k: int| 0 <= k < img.rows@.len() implies (#[trigger] img.rows@[k])@ == want[k] by {
                if k != y {
                    assert(img.rows@[k] == was[k]);
                } else {
                    assert(img.rows@[k]@ =~= want[k]);
                }
            }
            assert(img@ =~= want);
            assert forall|k: int| 0 <= k < img.rows@.len() implies (#[trigger] img.rows@[k])@.len()
                == img.width by {
                if k != y {
                    assert(img.rows@[k] == was[k]);
                }
            }
        }
    }
}

/// A pixel that was set reads back, and every other pixel stays.
pub proof fn set_pixel_reads_back(p: Picture, w: int, x: int, y: int, c: Pixel, x2: int, y2: int)
    requires
        forall|k: int| 0 <= k < p.len() ==> (#[trigger] p[k]).len() == w,
        0 <= x < w,
        0 <= y < p.len(),
    ensures
        pixel_at(with_pixel(p, w, x, y, c), w, x2, y2) == (if x2 == x && y2 == y {
            Some(c)
        } else {
            pixel_at(p, w, x2, y2)
        }),
{
    assert(p[y].len() == w);
}

// ── point by point ──────────────────────────────────────────────────────────

/// Black or white, by lightness.
pub open spec fn thresholded(p: Pixel, level: u64) -> Pixel {
    let v: u8 = if luma(p.r, p.g, p.b) >= level {
        255
    } else {
        0
    };
    Pixel { r: v, g: v, b: v, a: p.a }
}

pub fn op_img_threshold(img: &Image, level: u64) -> (r: Image)
    requires
        img.wf(),
    ensures
        r.wf(),
        r.width == img.width,
        r@ == mapped(img@, |p: Pixel| thresholded(p, level)),
{
    let f = |p: Pixel| -> (q: Pixel)
        ensures
            q == thresholded(p, level),
        {
            let v: u8 = if luma601(p.r, p.g, p.b) as u64 >= level {
                255
            } else {
                0
            };
            Pixel { r: v, g: v, b: v, a: p.a }
        };
    pixel_map(img, &f, Ghost(|p: Pixel| thresholded(p, level)))
}

/// The number of levels that is asked for, from 2 to 256.
pub open spec fn level_count(levels: u64) -> int {
    if levels < 2 {
        2
    } else if levels > 256 {
        256
    } else {
        levels as int
    }
}

/// A channel brought to the nearest of evenly spread levels.
pub open spec fn leveled(c: u8, levels: int) -> u8 {
    let step: int = 255int / (levels - 1);
    let v = ((c + step / 2) / step) * step;
    if v > 255 {
        255
    } else {
        v as u8
    }
}

pub open spec fn posterized(p: Pixel, levels: int) -> Pixel {
    Pixel { r: leveled(p.r, levels), g: leveled(p.g, levels), b: leveled(p.b, levels), a: p.a }
}

fn level(c: u8, levels: u32) -> (r: u8)
    requires
        2 <= levels <= 256,
    ensures
        r == leveled(c, levels as int),
{
    let step: u32 = 255 / (levels - 1);
    assert(1 <= step <= 255) by (nonlinear_arith)
        requires
            step == 255u32 / ((levels - 1) as u32),
            1 <= levels - 1 <= 255,
    ;
    let k: u32 = (c as u32 + step / 2) / step;
    assert(k <= 510);
    assert(k * step <= c + step / 2) by (nonlinear_arith)
        requires
            k == (c as u32 + step / 2) as u32 / step,
            step >= 1,
    ;
    let v: u32 = k * step;
    if v > 255 {
        255
    } else {
        v as u8
    }
}

pub fn op_img_posterize(img: &Image, levels: u64) -> (r: Image)
    requires
        img.wf(),
    ensures
        r.wf(),
        r.width == img.width,
        r@ == mapped(img@, |p: Pixel| posterized(p, level_count(levels))),
{
    let n: u32 = if levels < 2 {
        2
    } else if levels > 256 {
        256
    } else {
        levels as u32
    };
    let f = |p: Pixel| -> (q: Pixel)
        requires
            2 <= n <= 256,
        ensures
            q == posterized(p, n as int),
        { Pixel { r: level(p.r, n), g: level(p.g, n), b: level(p.b, n), a: p.a } };
    pixel_map(img, &f, Ghost(|p: Pixel| posterized(p, level_count(levels))))
}

/// A color as seen through another.
pub open spec fn tinted(p: Pixel, c: Pixel) -> Pixel {
    Pixel {
        r: (p.r * c.r / 255) as u8,
        g: (p.g * c.g / 255) as u8,
        b: (p.b * c.b / 255) as u8,
        a: p.a,
    }
}

fn scale(x: u8, t: u8) -> (r: u8)
    ensures
        r == (x * t / 255) as u8,
{
    assert(x * t <= 65025) by (nonlinear_arith)
        requires
            x <= 255,
            t <= 255,
    ;
    ((x as u32 * t as u32) / 255) as u8
}

pub fn op_img_tint(img: &Image, c: Pixel) -> (r: Image)
    requires
        img.wf(),
    ensures
        r.wf(),
        r.width == img.width,
        r@ == mapped(img@, |p: Pixel| tinted(p, c)),
{
    let f = |p: Pixel| -> (q: Pixel)
        ensures
            q == tinted(p, c),
        { Pixel { r: scale(p.r, c.r), g: scale(p.g, c.g), b: scale(p.b, c.b), a: p.a } };
    pixel_map(img, &f, Ghost(|p: Pixel| tinted(p, c)))
}

/// A channel turned round where it reaches a threshold.
pub open spec fn turned(v: u8, t: u64) -> u8 {
    if v >= t {
        (255 - v) as u8
    } else {
        v
    }
}

pub open spec fn solarized(p: Pixel, t: u64) -> Pixel {
    Pixel { r: turned(p.r, t), g: turned(p.g, t), b: turned(p.b, t), a: p.a }
}

fn turn(v: u8, t: u64) -> (r: u8)
    ensures
        r == turned(v, t),
{
    if v as u64 >= t {
        255 - v
    } else {
        v
    }
}

/// Turns round all channels that reach a threshold; above 255 none does.
pub fn op_img_solarize(img: &Image, t: u64) -> (r: Image)
    requires
        img.wf(),
    ensures
        r.wf(),
        r.width == img.width,
        r@ == mapped(img@, |p: Pixel| solarized(p, t)),
{
    let f = |p: Pixel| -> (q: Pixel)
        ensures
            q == solarized(p, t),
        { Pixel { r: turn(p.r, t), g: turn(p.g, t), b: turn(p.b, t), a: p.a } };
    pixel_map(img, &f, Ghost(|p: Pixel| solarized(p, t)))
}

/// Solarizing from beyond all values on changes nothing.
pub proof fn far_solarizing_changes_nothing(p: Pixel, t: u64)
    requires
        t > 255,
    ensures
        solarized(p, t) == p,
{
}

/// Solarizing from 0 on is undone by doing it again.
pub proof fn full_solarizing_is_undone(p: Pixel)
    ensures
        solarized(solarized(p, 0), 0) == p,
{
}

pub open spec fn with_alpha(p: Pixel, a: u8) -> Pixel {
    Pixel { r: p.r, g: p.g, b: p.b, a }
}

/// Sets one opacity for all pixels.
pub fn op_img_putalpha(img: &Image, a: u8) -> (r: Image)
    requires
        img.wf(),
    ensures
        r.wf(),
        r.width == img.width,
        r@ == mapped(img@, |p: Pixel| with_alpha(p, a)),
{
    let f = |p: Pixel| -> (q: Pixel)
        ensures
            q == with_alpha(p, a),
        { Pixel { r: p.r, g: p.g, b: p.b, a } };
    pixel_map(img, &f, Ghost(|p: Pixel| with_alpha(p, a)))
}

/// How far two channels are apart.
pub open spec fn apart(x: u8, y: u8) -> int {
    if x >= y {
        x - y
    } else {
        y - x
    }
}

fn distance(x: u8, y: u8) -> (r: u8)
    ensures
        r == apart(x, y),
{
    if x >= y {
        x - y
    } else {
        y - x
    }
}

/// Whether two colors are near each other; opacity does not count.
pub open spec fn near_color(p: Pixel, c: Pixel, tol: i64) -> bool {
    apart(p.r, c.r) <= tol && apart(p.g, c.g) <= tol && apart(p.b, c.b) <= tol
}

/// Whether two pixels are near each other; opacity counts.
pub open spec fn near_pixel(p: Pixel, c: Pixel, tol: i64) -> bool {
    near_color(p, c, tol) && apart(p.a, c.a) <= tol
}

fn is_near_color(p: Pixel, c: Pixel, tol: i64) -> (r: bool)
    ensures
        r == near_color(p, c, tol),
{
    distance(p.r, c.r) as i64 <= tol && distance(p.g, c.g) as i64 <= tol && distance(p.b, c.b) as i64
        <= tol
}

pub fn is_near_pixel(p: Pixel, c: Pixel, tol: i64) -> (r: bool)
    ensures
        r == near_pixel(p, c, tol),
{
    is_near_color(p, c, tol) && distance(p.a, c.a) as i64 <= tol
}

pub open spec fn recolored(p: Pixel, from: Pixel, to: Pixel, tol: i64) -> Pixel {
    if near_color(p, from, tol) {
        to
    } else {
        p
    }
}

/// Replaces the pixels near a color by another.
pub fn op_img_replace_color(img: &Image, from: Pixel, to: Pixel, tol: i64) -> (r: Image)
    requires
        img.wf(),
    ensures
        r.wf(),
        r.width == img.width,
        r@ == mapped(img@, |p: Pixel| recolored(p, from, to, tol)),
{
    let f = |p: Pixel| -> (q: Pixel)
        ensures
            q == recolored(p, from, to, tol),
        {
            if is_near_color(p, from, tol) {
                to
            } else {
                p
            }
        };
    pixel_map(img, &f, Ghost(|p: Pixel| recolored(p, from, to, tol)))
}

/// The channel that a letter names; red for any other letter.
pub open spec fn channel_of(p: Pixel, c: char) -> u8 {
    if c == 'g' {
        p.g
    } else if c == 'b' {
        p.b
    } else if c == 'a' {
        p.a
    } else {
        p.r
    }
}

/// A pixel with its channels in another order, as far as letters are given.
pub open spec fn reordered(p: Pixel, order: Seq<char>) -> Pixel {
    Pixel {
        r: if order.len() > 0 {
            channel_of(p, order[0])
        } else {
            p.r
        },
        g: if order.len() > 1 {
            channel_of(p, order[1])
        } else {
            p.g
        },
        b: if order.len() > 2 {
            channel_of(p, order[2])
        } else {
            p.b
        },
        a: if order.len() > 3 {
            channel_of(p, order[3])
        } else {
            p.a
        },
    }
}

fn pick_channel(p: Pixel, c: char) -> (r: u8)
    ensures
        r == channel_of(p, c),
{
    if c == 'g' {
        p.g
    } else if c == 'b' {
        p.b
    } else if c == 'a' {
        p.a
    } else {
        p.r
    }
}

/// Reorders the channels of all pixels; letters count in either case.
pub fn op_img_swap_channels(img: &Image, order: &str) -> (r: Image)
    requires
        img.wf(),
    ensures
        r.wf(),
        r.width == img.width,
        r@ == mapped(img@, |p: Pixel| reordered(p, lower(order@))),
{
    let low = crate::text::ascii_lower(order);
    let cs = chars_of(low.as_str());
    let f = |p: Pixel| -> (q: Pixel)
        ensures
            q == reordered(p, cs@),
        {
            let mut q = p;
            if cs.len() > 0 {
                q.r = pick_channel(p, cs[0]);
            }
            if cs.len() > 1 {
                q.g = pick_channel(p, cs[1]);
            }
            if cs.len() > 2 {
                q.b = pick_channel(p, cs[2]);
            }
            if cs.len() > 3 {
                q.a = pick_channel(p, cs[3]);
            }
            q
        };
    pixel_map(img, &f, Ghost(|p: Pixel| reordered(p, lower(order@))))
}

/// A color put through a table for each channel.
pub open spec fn toned(p: Pixel, r: Seq<u8>, g: Seq<u8>, b: Seq<u8>) -> Pixel {
    Pixel { r: r[p.r as int], g: g[p.g as int], b: b[p.b as int], a: p.a }
}

/// Puts each channel through a table of 256 values: gamma, contrast and equalizing are
/// such tables.
pub fn apply_tables(img: &Image, r: &Vec<u8>, g: &Vec<u8>, b: &Vec<u8>) -> (o: Image)
    requires
        img.wf(),
        r@.len() == 256,
        g@.len() == 256,
        b@.len() == 256,
    ensures
        o.wf(),
        o.width == img.width,
        o@ == mapped(img@, |p: Pixel| toned(p, r@, g@, b@)),
{
    let f = |p: Pixel| -> (q: Pixel)
        requires
            r@.len() == 256,
            g@.len() == 256,
            b@.len() == 256,
        ensures
            q == toned(p, r@, g@, b@),
        { Pixel { r: r[p.r as usize], g: g[p.g as usize], b: b[p.b as usize], a: p.a } };
    pixel_map(img, &f, Ghost(|p: Pixel| toned(p, r@, g@, b@)))
}

/// A color by lightness, out of a table.
pub open spec fn shaded(p: Pixel, table: Seq<Pixel>) -> Pixel {
    let c = table[luma(p.r, p.g, p.b) as int];
    Pixel { r: c.r, g: c.g, b: c.b, a: p.a }
}

/// Gives each pixel the color that a table of 256 holds for its lightness.
pub fn apply_gradient(img: &Image, table: &Vec<Pixel>) -> (r: Image)
    requires
        img.wf(),
        table@.len() == 256,
    ensures
        r.wf(),
        r.width == img.width,
        r@ == mapped(img@, |p: Pixel| shaded(p, table@)),
{
    let f = |p: Pixel| -> (q: Pixel)
        requires
            table@.len() == 256,
        ensures
            q == shaded(p, table@),
        {
            let c = table[luma601(p.r, p.g, p.b) as usize];
            Pixel { r: c.r, g: c.g, b: c.b, a: p.a }
        };
    pixel_map(img, &f, Ghost(|p: Pixel| shaded(p, table@)))
}

/// Puts the opacity of each pixel through a table of 256 values.
pub fn apply_alpha(img: &Image, table: &Vec<u8>) -> (r: Image)
    requires
        img.wf(),
        table@.len() == 256,
    ensures
        r.wf(),
        r.width == img.width,
        r@ == mapped(img@, |p: Pixel| with_alpha(p, table@[p.a as int])),
{
    let f = |p: Pixel| -> (q: Pixel)
        requires
            table@.len() == 256,
        ensures
            q == with_alpha(p, table@[p.a as int]),
        { Pixel { r: p.r, g: p.g, b: p.b, a: table[p.a as usize] } };
    pixel_map(img, &f, Ghost(|p: Pixel| with_alpha(p, table@[p.a as int])))
}

// ── moved ───────────────────────────────────────────────────────────────────

/// A picture with rows and columns exchanged.
pub open spec fn flipped_main(p: Picture, w: nat) -> Picture {
    picture(p.len(), w, |x: int, y: int| p[x][y])
}

/// Mirrors an image at its main diagonal.
pub fn op_img_transpose(img: &Image) -> (r: Image)
    requires
        img.wf(),
    ensures
        r.wf(),
        r.width == img@.len(),
        r@ == flipped_main(img@, img.width as nat),
{
    let h = img.height();
    let f = |x: usize, y: usize| -> (p: Pixel)
        requires
            x < img.rows@.len(),
            y < img.width,
            img.wf(),
        ensures
            p == img.rows@[x as int]@[y as int],
        {
            assert(img.rows@[x as int]@.len() == img.width);
            img.rows[x][y]
        };
    let ghost g = |x: int, y: int| img@[x][y];
    build(h, img.width, &f, Ghost(g))
}

/// A picture mirrored at the other diagonal.
pub open spec fn flipped_anti(p: Picture, w: nat) -> Picture {
    picture(p.len(), w, |x: int, y: int| p[p.len() - 1 - x][w - 1 - y])
}

/// Mirrors an image at its other diagonal.
pub fn op_img_transverse(img: &Image) -> (r: Image)
    requires
        img.wf(),
    ensures
        r.wf(),
        r.width == img@.len(),
        r@ == flipped_anti(img@, img.width as nat),
{
    let h = img.height();
    let w = img.width;
    let f = |x: usize, y: usize| -> (p: Pixel)
        requires
            x < h,
            h == img.rows@.len(),
            y < img.width,
            w == img.width,
            img.wf(),
        ensures
            p == img.rows@[img.rows@.len() - 1 - x]@[img.width - 1 - y],
        {
            let i: usize = h as usize - 1 - x;
            assert(img.rows@[i as int]@.len() == img.width);
            img.rows[i][w as usize - 1 - y]
        };
    let ghost g = |x: int, y: int| img@[img@.len() - 1 - x][img.width - 1 - y];
    let r = build(h, img.width, &f, Ghost(g));
    assert(r@ =~= flipped_anti(img@, img.width as nat)) by {
        assert forall|y: int| 0 <= y < r@.len() implies r@[y] == flipped_anti(
            img@,
            img.width as nat,
        )[y] by {
            assert(r@[y] =~= flipped_anti(img@, img.width as nat)[y]);
        }
    }
    r
}

/// Mirroring at a diagonal twice gives a picture back.
pub proof fn mirroring_twice_gives_back(p: Picture, w: nat)
    requires
        forall|y: int| 0 <= y < p.len() ==> (#[trigger] p[y]).len() == w,
    ensures
        flipped_main(flipped_main(p, w), p.len()) == p,
        flipped_anti(flipped_anti(p, w), p.len()) == p,
{
    let a = flipped_main(p, w);
    let b = flipped_main(a, p.len());
    assert forall|y: int| 0 <= y < p.len() implies b[y] == p[y] by {
        assert(p[y].len() == w);
        assert forall|x: int| 0 <= x < w implies b[y][x] == p[y][x] by {
            assert(a[x][y] == p[y][x]);
        }
        assert(b[y] =~= p[y]);
    }
    assert(b =~= p);
    let c = flipped_anti(p, w);
    let d = flipped_anti(c, p.len());
    assert forall|y: int| 0 <= y < p.len() implies d[y] == p[y] by {
        assert(p[y].len() == w);
        assert forall|x: int| 0 <= x < w implies d[y][x] == p[y][x] by {
            assert(c[w - 1 - x][p.len() - 1 - y] == p[y][x]);
        }
        assert(d[y] =~= p[y]);
    }
    assert(d =~= p);
}

/// The part of a picture of a size that begins at a position.
pub open spec fn cropped(p: Picture, x0: int, y0: int, w: nat, h: nat) -> Picture {
    picture(w, h, |x: int, y: int| p[y0 + y][x0 + x])
}

fn crop(img: &Image, x0: u32, y0: u32, w: u32, h: u32) -> (r: Image)
    requires
        img.wf(),
        x0 + w <= img.width,
        y0 + h <= img@.len(),
    ensures
        r.wf(),
        r.width == w,
        r@ == cropped(img@, x0 as int, y0 as int, w as nat, h as nat),
{
    let f = |x: usize, y: usize| -> (p: Pixel)
        requires
            x < w,
            y < h,
            x0 + w <= img.width,
            y0 + h <= img.rows@.len(),
            img.wf(),
        ensures
            p == img.rows@[y0 + y]@[x0 + x],
        {
            assert(img.rows@[y0 + y]@.len() == img.width);
            img.rows[y0 as usize + y][x0 as usize + x]
        };
    let ghost g = |x: int, y: int| img@[y0 + y][x0 + x];
    let r = build(w, h, &f, Ghost(g));
    r
}

/// Whether a pixel differs from the one in the corner.
pub open spec fn stands_out(p: Picture, x: int, y: int, tol: i64) -> bool {
    !near_pixel(p[y][x], p[0][0], tol)
}

/// Whether a box holds all pixels that stand out, and each of its sides touches one.
pub open spec fn is_bounding(p: Picture, w: int, tol: i64, x0: int, y0: int, x1: int, y1: int) -> bool {
    &&& 0 <= x0 <= x1 < w
    &&& 0 <= y0 <= y1 < p.len()
    &&& forall|x: int, y: int|
        0 <= x < w && 0 <= y < p.len() && #[trigger] stands_out(p, x, y, tol) ==> x0 <= x <= x1 && y0
            <= y <= y1
    &&& exists|y: int| 0 <= y < p.len() && #[trigger] stands_out(p, x0, y, tol)
    &&& exists|y: int| 0 <= y < p.len() && #[trigger] stands_out(p, x1, y, tol)
    &&& exists|x: int| 0 <= x < w && #[trigger] stands_out(p, x, y0, tol)
    &&& exists|x: int| 0 <= x < w && #[trigger] stands_out(p, x, y1, tol)
}

/// Whether no pixel stands out.
pub open spec fn is_plain(p: Picture, w: int, tol: i64) -> bool {
    forall|x: int, y: int|
        0 <= x < w && 0 <= y < p.len() ==> !#[trigger] stands_out(p, x, y, tol)
}

/// What has been seen: the box round the pixels that stand out among those up to row `y`,
/// column `x`.
pub open spec fn seen_before(x: int, y: int, xx: int, yy: int) -> bool {
    yy < y || (yy == y && xx < x)
}

pub(crate) fn copy_image(img: &Image) -> (r: Image)
    requires
        img.wf(),
    ensures
        r.wf(),
        r.width == img.width,
        r@ == img@,
{
    let f = |p: Pixel| -> (q: Pixel)
        ensures
            q == p,
        { p };
    let r = pixel_map(img, &f, Ghost(|p: Pixel| p));
    proof {
        assert forall|y: int| 0 <= y < img@.len() implies r@[y] == img@[y] by {
            assert(r@[y] =~= img@[y]);
        }
        assert(r@ =~= img@);
    }
    r
}

#[derive(Clone, Copy)]
struct Bounds {
    x0: usize,
    y0: usize,
    x1: usize,
    y1: usize,
}

fn grow_bounds(b: Option<Bounds>, x: usize, y: usize) -> (r: Bounds)
    ensures
        match b {
            None => r.x0 == x && r.x1 == x && r.y0 == y && r.y1 == y,
            Some(o) => {
                &&& r.x0 == if x < o.x0 { x } else { o.x0 }
                &&& r.x1 == if x > o.x1 { x } else { o.x1 }
                &&& r.y0 == if y < o.y0 { y } else { o.y0 }
                &&& r.y1 == if y > o.y1 { y } else { o.y1 }
            },
        },
{
    match b {
        None => Bounds { x0: x, y0: y, x1: x, y1: y },
        Some(o) => Bounds {
            x0: if x < o.x0 {
                x
            } else {
                o.x0
            },
            y0: if y < o.y0 {
                y
            } else {
                o.y0
            },
            x1: if x > o.x1 {
                x
            } else {
                o.x1
            },
            y1: if y > o.y1 {
                y
            } else {
                o.y1
            },
        },
    }
}

/// What is known of the pixels seen so far.
spec fn bounds_fit(p: Picture, w: int, tol: i64, b: Option<Bounds>, x: int, y: int) -> bool {
    match b {
        None => forall|xx: int, yy: int|
            0 <= xx < w && 0 <= yy < p.len() && seen_before(x, y, xx, yy) ==> !#[trigger] stands_out(
                p,
                xx,
                yy,
                tol,
            ),
        Some(o) => {
            &&& 0 <= o.x0 <= o.x1 < w
            &&& 0 <= o.y0 <= o.y1 < p.len()
            &&& forall|xx: int, yy: int|
                0 <= xx < w && 0 <= yy < p.len() && seen_before(x, y, xx, yy)
                    && #[trigger] stands_out(p, xx, yy, tol) ==> o.x0 <= xx <= o.x1 && o.y0 <= yy
                    <= o.y1
            &&& exists|yy: int| 0 <= yy < p.len() && #[trigger] stands_out(p, o.x0 as int, yy, tol)
            &&& exists|yy: int| 0 <= yy < p.len() && #[trigger] stands_out(p, o.x1 as int, yy, tol)
            &&& exists|xx: int| 0 <= xx < w && #[trigger] stands_out(p, xx, o.y0 as int, tol)
            &&& exists|xx: int| 0 <= xx < w && #[trigger] stands_out(p, xx, o.y1 as int, tol)
        },
    }
}

fn find_bounds(img: &Image, tol: i64) -> (r: Option<Bounds>)
    requires
        img.wf(),
        img.width > 0,
        img@.len() > 0,
    ensures
        match r {
            None => is_plain(img@, img.width as int, tol),
            Some(b) => is_bounding(
                img@,
                img.width as int,
                tol,
                b.x0 as int,
                b.y0 as int,
                b.x1 as int,
                b.y1 as int,
            ),
        },
{
    let ghost p = img@;
    let ghost wi = img.width as int;
    assert(img.rows@[0]@.len() == img.width);
    let corner = img.rows[0][0];
    let w: usize = img.width as usize;
    let mut found: Option<Bounds> = None;
    let mut y: usize = 0;
    while y < img.rows.len()
        invariant
            img.wf(),
            p == img@,
            wi == img.width,
            w == img.width,
            w > 0,
            y <= img.rows@.len(),
            img.rows@.len() > 0,
            corner == p[0][0],
            bounds_fit(p, wi, tol, found, 0, y as int),
        decreases img.rows@.len() - y,
    {
        assert(img.rows@[y as int]@.len() == img.width);
        let mut x: usize = 0;
        while x < w
            invariant
                img.wf(),
                p == img@,
                wi == img.width,
                w == img.width,
                x <= w,
                y < img.rows@.len(),
                img.rows@[y as int]@.len() == img.width,
                corner == p[0][0],
                bounds_fit(p, wi, tol, found, x as int, y as int),
            decreases w - x,
        {
            let ghost was = found;
            if !is_near_pixel(img.rows[y][x], corner, tol) {
                assert(stands_out(p, x as int, y as int, tol));
                found = Some(grow_bounds(found, x, y));
                proof {
                    let o = found->0;
                    assert forall|xx: int, yy: int|
                        0 <= xx < wi && 0 <= yy < p.len() && seen_before(x + 1, y as int, xx, yy)
                            && #[trigger] stands_out(p, xx, yy, tol) implies o.x0 <= xx <= o.x1 && o.y0
                        <= yy <= o.y1 by {
                        if !(xx == x && yy == y) {
                            assert(seen_before(x as int, y as int, xx, yy));
                        }
                    }
                    match was {
                        None => {},
                        Some(b) => {
                            let a1 = choose|yy: int|
                                0 <= yy < p.len() && #[trigger] stands_out(p, b.x0 as int, yy, tol);
                            let a2 = choose|yy: int|
                                0 <= yy < p.len() && #[trigger] stands_out(p, b.x1 as int, yy, tol);
                            let a3 = choose|xx: int|
                                0 <= xx < wi && #[trigger] stands_out(p, xx, b.y0 as int, tol);
                            let a4 = choose|xx: int|
                                0 <= xx < wi && #[trigger] stands_out(p, xx, b.y1 as int, tol);
                            assert(stands_out(p, b.x0 as int, a1, tol));
                            assert(stands_out(p, b.x1 as int, a2, tol));
                            assert(stands_out(p, a3, b.y0 as int, tol));
                            assert(stands_out(p, a4, b.y1 as int, tol));
                        },
                    }
                }
            } else {
                assert(!stands_out(p, x as int, y as int, tol));
                assert forall|xx: int, yy: int|
                    0 <= xx < wi && 0 <= yy < p.len() && seen_before(x + 1, y as int, xx, yy)
                        && #[trigger] stands_out(p, xx, yy, tol) implies seen_before(
                    x as int,
                    y as int,
                    xx,
                    yy,
                ) by {}
            }
            x = x + 1;
            assert(bounds_fit(p, wi, tol, found, x as int, y as int));
        }
        proof {
            assert forall|xx: int, yy: int|
                0 <= xx < wi && 0 <= yy < p.len() && seen_before(0, y + 1, xx, yy) implies #[trigger] seen_before(
                x as int,
                y as int,
                xx,
                yy,
            ) by {}
        }
        y = y + 1;
        assert(bounds_fit(p, wi, tol, found, 0, y as int));
    }
    proof {
        assert forall|xx: int, yy: int|
            0 <= xx < wi && 0 <= yy < p.len() implies #[trigger] seen_before(0, y as int, xx, yy) by {}
        match found {
            None => {
                assert forall|xx: int, yy: int|
                    0 <= xx < wi && 0 <= yy < p.len() implies !#[trigger] stands_out(
                    p,
                    xx,
                    yy,
                    tol,
                ) by {
                    assert(seen_before(0, y as int, xx, yy));
                }
            },
            Some(o) => {
                assert forall|xx: int, yy: int|
                    0 <= xx < wi && 0 <= yy < p.len() && #[trigger] stands_out(
                        p,
                        xx,
                        yy,
                        tol,
                    ) implies o.x0 <= xx <= o.x1 && o.y0 <= yy <= o.y1 by {
                    assert(seen_before(0, y as int, xx, yy));
                }
            },
        }
    }
    found
}

/// Cuts the border off that is like the pixel in the corner: what is left is the smallest
/// box that holds all other pixels, or the whole image where there is none.
pub fn op_img_trim(img: &Image, tol: i64) -> (r: Image)
    requires
        img.wf(),
    ensures
        r.wf(),
        if img.width == 0 || img@.len() == 0 || is_plain(img@, img.width as int, tol) {
            r@ == img@ && r.width == img.width
        } else {
            exists|x0: int, y0: int, x1: int, y1: int|
                #[trigger] is_bounding(img@, img.width as int, tol, x0, y0, x1, y1) && r.width == x1
                    - x0 + 1 && r@ == cropped(
                    img@,
                    x0,
                    y0,
                    (x1 - x0 + 1) as nat,
                    (y1 - y0 + 1) as nat,
                )
        },
{
    if img.width == 0 || img.rows.len() == 0 {
        return copy_image(img);
    }
    match find_bounds(img, tol) {
        None => copy_image(img),
        Some(b) => {
            proof {
                let (x0, y0) = (b.x0 as int, b.y0 as int);
                let y = choose|y: int| 0 <= y < img@.len() && #[trigger] stands_out(img@, x0, y, tol);
                assert(stands_out(img@, x0, y, tol));
                assert(!is_plain(img@, img.width as int, tol));
            }
            crop(
                img,
                b.x0 as u32,
                b.y0 as u32,
                (b.x1 - b.x0 + 1) as u32,
                (b.y1 - b.y0 + 1) as u32,
            )
        },
    }
}

/// Two boxes round the same pixels are the same.
pub proof fn bounding_is_unique(
    p: Picture,
    w: int,
    tol: i64,
    a: (int, int, int, int),
    b: (int, int, int, int),
)
    requires
        is_bounding(p, w, tol, a.0, a.1, a.2, a.3),
        is_bounding(p, w, tol, b.0, b.1, b.2, b.3),
    ensures
        a == b,
{
    let y1 = choose|y: int| 0 <= y < p.len() && #[trigger] stands_out(p, a.0, y, tol);
    let y2 = choose|y: int| 0 <= y < p.len() && #[trigger] stands_out(p, b.0, y, tol);
    let y3 = choose|y: int| 0 <= y < p.len() && #[trigger] stands_out(p, a.2, y, tol);
    let y4 = choose|y: int| 0 <= y < p.len() && #[trigger] stands_out(p, b.2, y, tol);
    let x1 = choose|x: int| 0 <= x < w && #[trigger] stands_out(p, x, a.1, tol);
    let x2 = choose|x: int| 0 <= x < w && #[trigger] stands_out(p, x, b.1, tol);
    let x3 = choose|x: int| 0 <= x < w && #[trigger] stands_out(p, x, a.3, tol);
    let x4 = choose|x: int| 0 <= x < w && #[trigger] stands_out(p, x, b.3, tol);
}

// ── what is done to each pixel ──────────────────────────────────────────────

/// Whether a position lies in a picture.
pub open spec fn lies_in(p: Picture, x: int, y: int) -> bool {
    0 <= y < p.len() && 0 <= x < p[y].len()
}

/// Whether a picture has as many pixels as another in each row.
pub open spec fn same_size(p: Picture, q: Picture) -> bool {
    p.len() == q.len() && forall|y: int| 0 <= y < p.len() ==> (#[trigger] q[y]).len() == p[y].len()
}

/// A picture with two tones has each pixel white where it is light enough, else black; the
/// lightness is that of red, green and blue in the ratio 299 to 587 to 114.
pub proof fn two_tones_go_by_lightness(p: Picture, level: u64, x: int, y: int)
    requires
        lies_in(p, x, y),
    ensures
        ({
            let out = mapped(p, |q: Pixel| thresholded(q, level));
            let (o, q) = (p[y][x], out[y][x]);
            &&& same_size(p, out)
            &&& q.a == o.a
            &&& q.r == q.g && q.g == q.b
            &&& q.r == (if 299 * o.r + 587 * o.g + 114 * o.b >= 1000 * level {
                255u8
            } else {
                0u8
            })
        }),
{
}

/// Whether a channel is one of evenly spread levels, the nearest to another from below by less
/// than a step.
pub open spec fn is_level_for(v: u8, c: u8, step: int) -> bool {
    ||| v == 255 && c + step / 2 >= 255
    ||| v % (step as u8) == 0 && c + step / 2 - step < v <= c + step / 2
}

proof fn lemma_level(c: u8, levels: int)
    requires
        2 <= levels <= 256,
    ensures
        is_level_for(leveled(c, levels), c, 255int / (levels - 1)),
        1 <= 255int / (levels - 1) <= 255,
{
    let d = levels - 1;
    let step: int = 255int / d;
    assert(1 <= step <= 255) by (nonlinear_arith)
        requires
            1 <= d <= 255,
            step == 255int / d,
    ;
    let t = c + step / 2;
    let k = t / step;
    let v = k * step;
    assert(v <= t && t < v + step) by (nonlinear_arith)
        requires
            step >= 1,
            k == t / step,
            v == k * step,
            t >= 0,
    ;
    assert(v % step == 0) by (nonlinear_arith)
        requires
            step >= 1,
            v == k * step,
    ;
}

/// A picture with few levels has each channel at a multiple of the distance of the levels,
/// the nearest one, or at the top.
pub proof fn few_levels_are_the_nearest(p: Picture, levels: u64, x: int, y: int)
    requires
        lies_in(p, x, y),
    ensures
        ({
            let n: int = if levels < 2 {
                2
            } else if levels > 256 {
                256
            } else {
                levels as int
            };
            let step: int = 255int / (n - 1);
            let out = mapped(p, |q: Pixel| posterized(q, level_count(levels)));
            let (o, q) = (p[y][x], out[y][x]);
            &&& same_size(p, out)
            &&& q.a == o.a
            &&& is_level_for(q.r, o.r, step)
            &&& is_level_for(q.g, o.g, step)
            &&& is_level_for(q.b, o.b, step)
        }),
{
    let o = p[y][x];
    lemma_level(o.r, level_count(levels));
    lemma_level(o.g, level_count(levels));
    lemma_level(o.b, level_count(levels));
}

/// A tint lets through of each channel the share that the channel of its color has.
pub proof fn tints_let_a_share_through(p: Picture, c: Pixel, x: int, y: int)
    requires
        lies_in(p, x, y),
    ensures
        ({
            let out = mapped(p, |q: Pixel| tinted(q, c));
            let (o, q) = (p[y][x], out[y][x]);
            &&& same_size(p, out)
            &&& q.a == o.a
            &&& 255 * q.r <= o.r * c.r < 255 * (q.r + 1)
            &&& 255 * q.g <= o.g * c.g < 255 * (q.g + 1)
            &&& 255 * q.b <= o.b * c.b < 255 * (q.b + 1)
        }),
{
    let o = p[y][x];
    lemma_share(o.r, c.r);
    lemma_share(o.g, c.g);
    lemma_share(o.b, c.b);
}

proof fn lemma_share(a: u8, b: u8)
    ensures
        0 <= a * b <= 255 * 255,
        255 * ((a * b / 255) as u8) <= a * b < 255 * (((a * b / 255) as u8) + 1),
{
    assert(0 <= a * b <= 255 * 255) by (nonlinear_arith)
        requires
            0 <= a <= 255,
            0 <= b <= 255,
    ;
}

/// Solarizing turns just the channels round that reach the threshold.
pub proof fn solarizing_turns_what_is_light(p: Picture, t: u64, x: int, y: int)
    requires
        lies_in(p, x, y),
    ensures
        ({
            let out = mapped(p, |q: Pixel| solarized(q, t));
            let (o, q) = (p[y][x], out[y][x]);
            &&& same_size(p, out)
            &&& q.a == o.a
            &&& q.r + o.r == 255 && o.r >= t || q.r == o.r && o.r < t
            &&& q.g + o.g == 255 && o.g >= t || q.g == o.g && o.g < t
            &&& q.b + o.b == 255 && o.b >= t || q.b == o.b && o.b < t
        }),
{
}

/// Whether channels differ by no more than a tolerance.
pub open spec fn within(a: u8, b: u8, tol: i64) -> bool {
    a - b <= tol && b - a <= tol
}

/// Replacing a color changes just the pixels whose red, green and blue are near it, to the new
/// one; putting an opacity in changes nothing but the opacity.
pub proof fn colors_are_replaced_where_they_are_near(
    p: Picture,
    from: Pixel,
    to: Pixel,
    tol: i64,
    a: u8,
    x: int,
    y: int,
)
    requires
        lies_in(p, x, y),
    ensures
        ({
            let out = mapped(p, |q: Pixel| recolored(q, from, to, tol));
            let clear = mapped(p, |q: Pixel| with_alpha(q, a));
            let (o, q) = (p[y][x], out[y][x]);
            let near = within(o.r, from.r, tol) && within(o.g, from.g, tol) && within(
                o.b,
                from.b,
                tol,
            );
            &&& same_size(p, out)
            &&& near ==> q == to
            &&& !near ==> q == o
            &&& same_size(p, clear)
            &&& clear[y][x] == (Pixel { r: o.r, g: o.g, b: o.b, a })
        }),
{
}

/// Letters put channels in a new order: the first letter says which one becomes red, the next
/// ones green, blue and opacity; without a letter a channel stays.
pub proof fn letters_order_the_channels(p: Picture, order: Seq<char>, x: int, y: int, k: int)
    requires
        lies_in(p, x, y),
        0 <= k < 4,
    ensures
        ({
            let out = mapped(p, |q: Pixel| reordered(q, order));
            let (o, q) = (p[y][x], out[y][x]);
            let old = seq![o.r, o.g, o.b, o.a];
            let now = seq![q.r, q.g, q.b, q.a];
            &&& same_size(p, out)
            &&& k >= order.len() ==> now[k] == old[k]
            &&& k < order.len() && order[k] == 'r' ==> now[k] == o.r
            &&& k < order.len() && order[k] == 'g' ==> now[k] == o.g
            &&& k < order.len() && order[k] == 'b' ==> now[k] == o.b
            &&& k < order.len() && order[k] == 'a' ==> now[k] == o.a
        }),
{
}

/// Tables are looked up channel by channel, and a gradient by lightness; opacity stays.
pub proof fn tables_are_looked_up(
    p: Picture,
    r: Seq<u8>,
    g: Seq<u8>,
    b: Seq<u8>,
    colors: Seq<Pixel>,
    x: int,
    y: int,
)
    requires
        lies_in(p, x, y),
        r.len() == 256 && g.len() == 256 && b.len() == 256 && colors.len() == 256,
    ensures
        ({
            let toned_p = mapped(p, |q: Pixel| toned(q, r, g, b));
            let shaded_p = mapped(p, |q: Pixel| shaded(q, colors));
            let o = p[y][x];
            let light = (299 * o.r + 587 * o.g + 114 * o.b) / 1000;
            &&& same_size(p, toned_p) && same_size(p, shaded_p)
            &&& toned_p[y][x] == (Pixel {
                r: r[o.r as int],
                g: g[o.g as int],
                b: b[o.b as int],
                a: o.a,
            })
            &&& shaded_p[y][x] == (Pixel {
                r: colors[light].r,
                g: colors[light].g,
                b: colors[light].b,
                a: o.a,
            })
        }),
{
}

/// A picture that is mirrored at a diagonal has each pixel where the diagonal puts it, and its
/// sides exchanged.
pub proof fn diagonals_exchange_places(p: Picture, w: nat, x: int, y: int)
    requires
        0 <= x < w,
        0 <= y < p.len(),
    ensures
        ({
            let h = p.len() as int;
            let main = flipped_main(p, w);
            let anti = flipped_anti(p, w);
            &&& main.len() == w && main[x].len() == h
            &&& anti.len() == w && anti[x].len() == h
            &&& main[x][y] == p[y][x]
            &&& anti[w - 1 - x][h - 1 - y] == p[y][x]
        }),
{
}

/// A part of a picture has each pixel as far from its corner as in the picture from the corner
/// of the part.
pub proof fn parts_keep_their_pixels(p: Picture, x0: int, y0: int, w: nat, h: nat, x: int, y: int)
    requires
        x0 <= x < x0 + w,
        y0 <= y < y0 + h,
    ensures
        cropped(p, x0, y0, w, h).len() == h,
        cropped(p, x0, y0, w, h)[y - y0].len() == w,
        cropped(p, x0, y0, w, h)[y - y0][x - x0] == p[y][x],
{
}

} // verus!
