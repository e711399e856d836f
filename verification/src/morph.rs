//! Images taken apart and put together by channels, and pixels computed from their
//! neighbours.

use crate::color::Pixel;
use crate::measure::{measured, Measure};
use crate::raster::{build, mapped, picture, pixel_map, Image, Picture};
use vstd::prelude::*;

verus! {

// ── channels ────────────────────────────────────────────────────────────────

/// A gray of a lightness.
pub open spec fn gray(v: u8) -> Pixel {
    Pixel { r: v, g: v, b: v, a: 255 }
}

/// One channel of a picture as an image of grays.
pub open spec fn plane(p: Picture, m: Measure) -> Picture {
    mapped(p, |q: Pixel| gray(measured(q, m)))
}

fn make_plane(img: &Image, m: Measure) -> (r: Image)
    requires
        img.wf(),
    ensures
        r.wf(),
        r.width == img.width,
        r@ == plane(img@, m),
{
    let f = |q: Pixel| -> (o: Pixel)
        ensures
            o == gray(measured(q, m)),
        {
            let v = crate::measure::measure(q, m);
            Pixel { r: v, g: v, b: v, a: 255 }
        };
    pixel_map(img, &f, Ghost(|q: Pixel| gray(measured(q, m))))
}

/// The four channels of an image, each as an image of grays.
pub struct Planes {
    pub r: Image,
    pub g: Image,
    pub b: Image,
    pub a: Image,
}

/// Takes an image apart into its channels.
pub fn op_img_split(img: &Image) -> (o: Planes)
    requires
        img.wf(),
    ensures
        o.r.wf() && o.r.width == img.width && o.r@ == plane(img@, Measure::Red),
        o.g.wf() && o.g.width == img.width && o.g@ == plane(img@, Measure::Green),
        o.b.wf() && o.b.width == img.width && o.b@ == plane(img@, Measure::Blue),
        o.a.wf() && o.a.width == img.width && o.a@ == plane(img@, Measure::Alpha),
{
    Planes {
        r: make_plane(img, Measure::Red),
        g: make_plane(img, Measure::Green),
        b: make_plane(img, Measure::Blue),
        a: make_plane(img, Measure::Alpha),
    }
}

/// `v`, or `n - 1` where it is larger.
pub open spec fn at_most(v: int, n: int) -> int {
    if v < n {
        v
    } else {
        n - 1
    }
}

/// The pixel of a merged picture: its channels are the red ones of four pictures; green
/// and blue are taken from the nearest pixel where their pictures are smaller.
pub open spec fn merged_pixel(
    r: Picture,
    g: Picture,
    gw: int,
    b: Picture,
    bw: int,
    a: Option<Picture>,
    x: int,
    y: int,
) -> Pixel {
    Pixel {
        r: r[y][x].r,
        g: g[at_most(y, g.len() as int)][at_most(x, gw)].r,
        b: b[at_most(y, b.len() as int)][at_most(x, bw)].r,
        a: match a {
            Some(m) => m[y][x].r,
            None => 255,
        },
    }
}

pub open spec fn opt_picture(a: Option<&Image>) -> Option<Picture> {
    match a {
        Some(m) => Some(m@),
        None => None,
    }
}

/// Whether an image is at least as large as another.
pub open spec fn covers(big: &Image, small: &Image) -> bool {
    small@.len() <= big@.len() && small.width <= big.width
}

/// Puts an image together out of channels; it is as large as the red one.
pub fn op_img_merge(r: &Image, g: &Image, b: &Image, a: Option<&Image>) -> (o: Image)
    requires
        r.wf(),
        g.wf(),
        b.wf(),
        g.width > 0 && g@.len() > 0,
        b.width > 0 && b@.len() > 0,
        a is Some ==> a->0.wf() && covers(a->0, r),
    ensures
        o.wf(),
        o.width == r.width,
        o@ == picture(
            r.width as nat,
            r@.len(),
            |x: int, y: int|
                merged_pixel(
                    r@,
                    g@,
                    g.width as int,
                    b@,
                    b.width as int,
                    opt_picture(a),
                    x,
                    y,
                ),
        ),
{
    let h = r.height();
    let f = |x: usize, y: usize| -> (p: Pixel)
        requires
            r.wf(),
            g.wf(),
            b.wf(),
            g.width > 0 && g.rows@.len() > 0,
            b.width > 0 && b.rows@.len() > 0,
            a is Some ==> a->0.wf() && covers(a->0, r),
            x < r.width,
            y < r.rows@.len(),
        ensures
            p == merged_pixel(
                r@,
                g@,
                g.width as int,
                b@,
                b.width as int,
                opt_picture(a),
                x as int,
                y as int,
            ),
        {
            assert(r.rows@[y as int]@.len() == r.width);
            let gy: usize = if y < g.rows.len() {
                y
            } else {
                g.rows.len() - 1
            };
            let gx: usize = if x < g.width as usize {
                x
            } else {
                g.width as usize - 1
            };
            assert(g.rows@[gy as int]@.len() == g.width);
            let by: usize = if y < b.rows.len() {
                y
            } else {
                b.rows.len() - 1
            };
            let bx: usize = if x < b.width as usize {
                x
            } else {
                b.width as usize - 1
            };
            assert(b.rows@[by as int]@.len() == b.width);
            let av: u8 = match a {
                Some(m) => {
                    assert(m@.len() == m.rows@.len());
                    assert(m.rows@[y as int]@.len() == m.width);
                    m.rows[y][x].r
                },
                None => 255,
            };
            Pixel { r: r.rows[y][x].r, g: g.rows[gy][gx].r, b: b.rows[by][bx].r, a: av }
        };
    let ghost gg = |x: int, y: int|
        merged_pixel(r@, g@, g.width as int, b@, b.width as int, opt_picture(a), x, y);
    build(r.width, h, &f, Ghost(gg))
}

/// An image taken apart into its channels and put together again is the same.
pub proof fn channels_give_back(p: Picture, w: nat)
    requires
        p.len() > 0,
        w > 0,
        forall|y: int| 0 <= y < p.len() ==> (#[trigger] p[y]).len() == w,
    ensures
        picture(
            w,
            p.len(),
            |x: int, y: int|
                merged_pixel(
                    plane(p, Measure::Red),
                    plane(p, Measure::Green),
                    w as int,
                    plane(p, Measure::Blue),
                    w as int,
                    Some(plane(p, Measure::Alpha)),
                    x,
                    y,
                ),
        ) == p,
{
    let back = picture(
        w,
        p.len(),
        |x: int, y: int|
            merged_pixel(
                plane(p, Measure::Red),
                plane(p, Measure::Green),
                w as int,
                plane(p, Measure::Blue),
                w as int,
                Some(plane(p, Measure::Alpha)),
                x,
                y,
            ),
    );
    assert forall|y: int| 0 <= y < p.len() implies back[y] == p[y] by {
        assert(p[y].len() == w);
        assert forall|x: int| 0 <= x < w implies back[y][x] == p[y][x] by {
            assert(plane(p, Measure::Red)[y][x] == gray(p[y][x].r));
            assert(plane(p, Measure::Green)[y][x] == gray(p[y][x].g));
            assert(plane(p, Measure::Blue)[y][x] == gray(p[y][x].b));
            assert(plane(p, Measure::Alpha)[y][x] == gray(p[y][x].a));
        }
        assert(back[y] =~= p[y]);
    }
    assert(back =~= p);
}

// ── neighbours ──────────────────────────────────────────────────────────────

/// The position nearest to `v` from 0 up to `n`.
pub open spec fn nearest(v: int, n: int) -> int {
    if v < 0 {
        0
    } else if v >= n {
        n - 1
    } else {
        v
    }
}

/// Neighbour `k` of nine, row by row; beyond the edge it is the nearest pixel.
pub open spec fn neighbour(p: Picture, w: int, x: int, y: int, k: int) -> Pixel {
    p[nearest(y + k / 3 - 1, p.len() as int)][nearest(x + k % 3 - 1, w)]
}

/// The larger or the smaller of two channels.
pub open spec fn pick(a: u8, b: u8, grow: bool) -> u8 {
    if grow {
        if b > a {
            b
        } else {
            a
        }
    } else if b < a {
        b
    } else {
        a
    }
}

/// The largest or the smallest value of a channel among the first `k` neighbours.
pub open spec fn extreme(
    p: Picture,
    w: int,
    x: int,
    y: int,
    m: Measure,
    grow: bool,
    k: nat,
) -> u8
    decreases k,
{
    if k == 0 {
        if grow {
            0
        } else {
            255
        }
    } else {
        pick(
            extreme(p, w, x, y, m, grow, (k - 1) as nat),
            measured(neighbour(p, w, x, y, k - 1), m),
            grow,
        )
    }
}

/// A pixel with the extreme colors of its nine neighbours, and its own opacity.
pub open spec fn morphed_pixel(p: Picture, w: int, x: int, y: int, grow: bool) -> Pixel {
    Pixel {
        r: extreme(p, w, x, y, Measure::Red, grow, 9),
        g: extreme(p, w, x, y, Measure::Green, grow, 9),
        b: extreme(p, w, x, y, Measure::Blue, grow, 9),
        a: p[y][x].a,
    }
}

/// A picture grown or shrunk by a pixel.
pub open spec fn morphed(p: Picture, w: nat, grow: bool) -> Picture {
    picture(w, p.len(), |x: int, y: int| morphed_pixel(p, w as int, x, y, grow))
}

/// A picture grown or shrunk several times.
pub open spec fn morphed_times(p: Picture, w: nat, grow: bool, n: nat) -> Picture
    decreases n,
{
    if n == 0 {
        p
    } else {
        morphed(morphed_times(p, w, grow, (n - 1) as nat), w, grow)
    }
}

fn pick_one(a: u8, b: u8, grow: bool) -> (r: u8)
    ensures
        r == pick(a, b, grow),
{
    if grow {
        if b > a {
            b
        } else {
            a
        }
    } else if b < a {
        b
    } else {
        a
    }
}

/// The position that lies `d` steps from `i`, kept inside.
fn step_from(i: usize, d: usize, back: usize, n: usize) -> (r: usize)
    requires
        i < n,
        n <= 0xffff_ffff,
        d <= 0xffff,
        back <= 0xffff,
    ensures
        r == nearest(i + d - back, n as int),
        r < n,
{
    let v: u64 = i as u64 + d as u64;
    if v < back as u64 {
        0
    } else if v - back as u64 >= n as u64 {
        n - 1
    } else {
        (v - back as u64) as usize
    }
}

fn morph_pixel(img: &Image, x: usize, y: usize, grow: bool) -> (r: Pixel)
    requires
        img.wf(),
        x < img.width,
        y < img.rows@.len(),
    ensures
        r == morphed_pixel(img@, img.width as int, x as int, y as int, grow),
{
    let ghost p = img@;
    let ghost wi = img.width as int;
    let w: usize = img.width as usize;
    let h: usize = img.rows.len();
    let start: u8 = if grow {
        0
    } else {
        255
    };
    let mut r: u8 = start;
    let mut g: u8 = start;
    let mut b: u8 = start;
    let mut k: usize = 0;
    while k < 9
        invariant
            k <= 9,
            img.wf(),
            p == img@,
            wi == img.width,
            w == img.width,
            h == img.rows@.len(),
            x < w,
            y < h,
            r == extreme(p, wi, x as int, y as int, Measure::Red, grow, k as nat),
            g == extreme(p, wi, x as int, y as int, Measure::Green, grow, k as nat),
            b == extreme(p, wi, x as int, y as int, Measure::Blue, grow, k as nat),
        decreases 9 - k,
    {
        let sy = step_from(y, k / 3, 1, h);
        let sx = step_from(x, k % 3, 1, w);
        assert(img.rows@[sy as int]@.len() == img.width);
        let q = img.rows[sy][sx];
        assert(q == neighbour(p, wi, x as int, y as int, k as int));
        r = pick_one(r, q.r, grow);
        g = pick_one(g, q.g, grow);
        b = pick_one(b, q.b, grow);
        k = k + 1;
    }
    assert(img.rows@[y as int]@.len() == img.width);
    Pixel { r, g, b, a: img.rows[y][x].a }
}

/// Grows or shrinks the light parts of an image by a pixel.
pub fn morph3(img: &Image, grow: bool) -> (r: Image)
    requires
        img.wf(),
    ensures
        r.wf(),
        r.width == img.width,
        r@ == morphed(img@, img.width as nat, grow),
{
    let h = img.height();
    let f = |x: usize, y: usize| -> (p: Pixel)
        requires
            img.wf(),
            x < img.width,
            y < img.rows@.len(),
        ensures
            p == morphed_pixel(img@, img.width as int, x as int, y as int, grow),
        { morph_pixel(img, x, y, grow) };
    let ghost g = |x: int, y: int| morphed_pixel(img@, img.width as int, x, y, grow);
    build(img.width, h, &f, Ghost(g))
}

fn morph_times(img: &Image, grow: bool, n: u64) -> (r: Image)
    requires
        img.wf(),
    ensures
        r.wf(),
        r.width == img.width,
        r@ == morphed_times(img@, img.width as nat, grow, n as nat),
{
    let mut cur = crate::raster::copy_image(img);
    let mut i: u64 = 0;
    while i < n
        invariant
            i <= n,
            cur.wf(),
            cur.width == img.width,
            cur@ == morphed_times(img@, img.width as nat, grow, i as nat),
        decreases n - i,
    {
        cur = morph3(&cur, grow);
        i = i + 1;
    }
    cur
}

/// The number of rounds that is asked for, from 1 to 16.
pub open spec fn rounds(n: u64) -> nat {
    if n < 1 {
        1
    } else if n > 16 {
        16
    } else {
        n as nat
    }
}

fn clamp_rounds(n: u64) -> (r: u64)
    ensures
        r == rounds(n),
{
    if n < 1 {
        1
    } else if n > 16 {
        16
    } else {
        n
    }
}

/// Grows the light parts of an image.
pub fn op_img_dilate(img: &Image, iterations: u64) -> (r: Image)
    requires
        img.wf(),
    ensures
        r.wf(),
        r.width == img.width,
        r@ == morphed_times(img@, img.width as nat, true, rounds(iterations)),
        is_spread_times(img@, r@, img.width as nat, true, iterations),
{
    proof {
        spreading_goes_round_by_round(img@, img.width as nat, true, iterations);
    }
    morph_times(img, true, clamp_rounds(iterations))
}

/// Shrinks the light parts of an image.
pub fn op_img_erode(img: &Image, iterations: u64) -> (r: Image)
    requires
        img.wf(),
    ensures
        r.wf(),
        r.width == img.width,
        r@ == morphed_times(img@, img.width as nat, false, rounds(iterations)),
        is_spread_times(img@, r@, img.width as nat, false, iterations),
{
    proof {
        spreading_goes_round_by_round(img@, img.width as nat, false, iterations);
    }
    morph_times(img, false, clamp_rounds(iterations))
}

proof fn lemma_extreme(p: Picture, w: int, x: int, y: int, m: Measure, grow: bool, k: nat, j: nat)
    requires
        j < k,
    ensures
        grow ==> extreme(p, w, x, y, m, grow, k) >= measured(
            neighbour(p, w, x, y, j as int),
            m,
        ),
        !grow ==> extreme(p, w, x, y, m, grow, k) <= measured(
            neighbour(p, w, x, y, j as int),
            m,
        ),
    decreases k,
{
    if j < k - 1 {
        lemma_extreme(p, w, x, y, m, grow, (k - 1) as nat, j);
    }
}

/// Growing makes no pixel darker, and shrinking makes none lighter.
pub proof fn growing_lightens_shrinking_darkens(p: Picture, w: nat, x: int, y: int, m: Measure)
    requires
        0 <= x < w,
        0 <= y < p.len(),
        m != Measure::Lightness,
    ensures
        measured(morphed(p, w, true)[y][x], m) >= measured(p[y][x], m),
        measured(morphed(p, w, false)[y][x], m) <= measured(p[y][x], m),
{
    assert(neighbour(p, w as int, x, y, 4) == p[y][x]);
    if m != Measure::Alpha {
        lemma_extreme(p, w as int, x, y, m, true, 9, 4);
        lemma_extreme(p, w as int, x, y, m, false, 9, 4);
    }
}

// ── box blur ────────────────────────────────────────────────────────────────

/// The pixel `d` steps along a row or a column, kept inside.
pub open spec fn along(p: Picture, w: int, x: int, y: int, d: int, in_row: bool) -> Pixel {
    if in_row {
        p[y][nearest(x + d, w)]
    } else {
        p[nearest(y + d, p.len() as int)][x]
    }
}

/// The sum of a channel over the first `k` pixels of the window from `-r` on.
pub open spec fn window_sum(
    p: Picture,
    w: int,
    x: int,
    y: int,
    m: Measure,
    r: int,
    in_row: bool,
    k: nat,
) -> nat
    decreases k,
{
    if k == 0 {
        0
    } else {
        window_sum(p, w, x, y, m, r, in_row, (k - 1) as nat) + measured(
            along(p, w, x, y, k - 1 - r, in_row),
            m,
        ) as nat
    }
}

/// The mean of a channel over a window, without its fraction.
pub open spec fn window_mean(
    p: Picture,
    w: int,
    x: int,
    y: int,
    m: Measure,
    r: int,
    in_row: bool,
) -> u8 {
    (window_sum(p, w, x, y, m, r, in_row, (2 * r + 1) as nat) / ((2 * r + 1) as nat)) as u8
}

pub open spec fn blurred_pixel(p: Picture, w: int, x: int, y: int, r: int, in_row: bool) -> Pixel {
    Pixel {
        r: window_mean(p, w, x, y, Measure::Red, r, in_row),
        g: window_mean(p, w, x, y, Measure::Green, r, in_row),
        b: window_mean(p, w, x, y, Measure::Blue, r, in_row),
        a: p[y][x].a,
    }
}

/// A picture blurred along its rows or its columns.
pub open spec fn blurred(p: Picture, w: nat, r: int, in_row: bool) -> Picture {
    picture(w, p.len(), |x: int, y: int| blurred_pixel(p, w as int, x, y, r, in_row))
}

/// The radius that is asked for, from 1 to 64.
pub open spec fn blur_radius(r: u64) -> int {
    if r < 1 {
        1
    } else if r > 64 {
        64
    } else {
        r as int
    }
}

fn blur_pixel(img: &Image, x: usize, y: usize, r: usize, in_row: bool) -> (o: Pixel)
    requires
        img.wf(),
        x < img.width,
        y < img.rows@.len(),
        1 <= r <= 64,
    ensures
        o == blurred_pixel(img@, img.width as int, x as int, y as int, r as int, in_row),
{
    let ghost p = img@;
    let ghost wi = img.width as int;
    let w: usize = img.width as usize;
    let h: usize = img.rows.len();
    let n: usize = 2 * r + 1;
    let mut sr: usize = 0;
    let mut sg: usize = 0;
    let mut sb: usize = 0;
    let mut k: usize = 0;
    while k < n
        invariant
            k <= n,
            n == 2 * r + 1,
            1 <= r <= 64,
            img.wf(),
            p == img@,
            wi == img.width,
            w == img.width,
            h == img.rows@.len(),
            x < w,
            y < h,
            sr == window_sum(p, wi, x as int, y as int, Measure::Red, r as int, in_row, k as nat),
            sg == window_sum(p, wi, x as int, y as int, Measure::Green, r as int, in_row, k as nat),
            sb == window_sum(p, wi, x as int, y as int, Measure::Blue, r as int, in_row, k as nat),
            sr <= 255 * k,
            sg <= 255 * k,
            sb <= 255 * k,
        decreases n - k,
    {
        let sy = if in_row {
            y
        } else {
            step_from(y, k, r, h)
        };
        let sx = if in_row {
            step_from(x, k, r, w)
        } else {
            x
        };
        assert(img.rows@[sy as int]@.len() == img.width);
        let q = img.rows[sy][sx];
        assert(q == along(p, wi, x as int, y as int, k - r, in_row));
        sr = sr + q.r as usize;
        sg = sg + q.g as usize;
        sb = sb + q.b as usize;
        k = k + 1;
    }
    assert(img.rows@[y as int]@.len() == img.width);
    assert(sr / n <= 255) by (nonlinear_arith)
        requires
            sr <= 255 * n,
            n >= 1,
    ;
    assert(sg / n <= 255) by (nonlinear_arith)
        requires
            sg <= 255 * n,
            n >= 1,
    ;
    assert(sb / n <= 255) by (nonlinear_arith)
        requires
            sb <= 255 * n,
            n >= 1,
    ;
    Pixel { r: (sr / n) as u8, g: (sg / n) as u8, b: (sb / n) as u8, a: img.rows[y][x].a }
}

fn blur_pass(img: &Image, r: usize, in_row: bool) -> (o: Image)
    requires
        img.wf(),
        1 <= r <= 64,
    ensures
        o.wf(),
        o.width == img.width,
        o@ == blurred(img@, img.width as nat, r as int, in_row),
{
    let h = img.height();
    let f = |x: usize, y: usize| -> (p: Pixel)
        requires
            img.wf(),
            x < img.width,
            y < img.rows@.len(),
            1 <= r <= 64,
        ensures
            p == blurred_pixel(img@, img.width as int, x as int, y as int, r as int, in_row),
        { blur_pixel(img, x, y, r, in_row) };
    let ghost g = |x: int, y: int| blurred_pixel(img@, img.width as int, x, y, r as int, in_row);
    build(img.width, h, &f, Ghost(g))
}

/// Blurs an image with a box: along its rows, then along its columns.
pub fn op_img_box_blur(img: &Image, radius: u64) -> (o: Image)
    requires
        img.wf(),
    ensures
        o.wf(),
        o.width == img.width,
        o@ == blurred(
            blurred(img@, img.width as nat, blur_radius(radius), true),
            img.width as nat,
            blur_radius(radius),
            false,
        ),
        is_box_blur(img@, o@, img.width as nat, radius),
{
    proof {
        box_blur_takes_means(img@, img.width as nat, radius);
    }
    let r: usize = if radius < 1 {
        1
    } else if radius > 64 {
        64
    } else {
        radius as usize
    };
    let a = blur_pass(img, r, true);
    blur_pass(&a, r, false)
}

// ── what a blur does to a picture ───────────────────────────────────────────

/// Whether a picture has `w` pixels in each row and as many rows as another.
pub open spec fn is_of_size(p: Picture, w: nat, h: nat) -> bool {
    p.len() == h && forall|y: int| 0 <= y < h ==> (#[trigger] p[y]).len() == w
}

/// Whole numbers added up.
pub open spec fn added_up(vs: Seq<u8>) -> nat
    decreases vs.len(),
{
    if vs.len() == 0 {
        0
    } else {
        added_up(vs.drop_last()) + vs.last() as nat
    }
}

/// Whether a number is the mean of others, without its fraction.
pub open spec fn is_mean_of(v: u8, vs: Seq<u8>) -> bool {
    v * vs.len() <= added_up(vs) < (v + 1) * vs.len()
}

/// The pixels from `r` before to `r` behind a position of a line, where the line goes on with
/// its end pixels.
pub open spec fn window_of(line: Seq<Pixel>, i: int, r: int) -> Seq<Pixel> {
    Seq::new(
        (2 * r + 1) as nat,
        |k: int|
            if i + k - r < 0 {
                line[0]
            } else if i + k - r > line.len() - 1 {
                line[line.len() - 1]
            } else {
                line[i + k - r]
            },
    )
}

/// A column of a picture.
pub open spec fn column_of(p: Picture, x: int) -> Seq<Pixel> {
    Seq::new(p.len(), |y: int| p[y][x])
}

/// Whether each color of a pixel is the mean of that color in others.
pub open spec fn is_mean_pixel(q: Pixel, of: Seq<Pixel>) -> bool {
    &&& is_mean_of(q.r, of.map_values(|o: Pixel| o.r))
    &&& is_mean_of(q.g, of.map_values(|o: Pixel| o.g))
    &&& is_mean_of(q.b, of.map_values(|o: Pixel| o.b))
}

/// Whether each pixel of a picture has the mean colors of the pixels beside it, in its row or
/// in its column, and the opacity that it had.
pub open spec fn is_blur_along(p: Picture, q: Picture, w: nat, r: int, in_row: bool) -> bool {
    &&& is_of_size(q, w, p.len())
    &&& forall|x: int, y: int|
        #![trigger q[y][x]]
        0 <= x < w && 0 <= y < p.len() ==> q[y][x].a == p[y][x].a && is_mean_pixel(
            q[y][x],
            if in_row {
                window_of(p[y], x, r)
            } else {
                window_of(column_of(p, x), y, r)
            },
        )
}

/// The number from 1 to `most` that is nearest to another.
pub open spec fn brought_within(n: u64, most: int) -> int {
    if n == 0 {
        1
    } else if n >= most {
        most
    } else {
        n as int
    }
}

/// Whether a picture is another one blurred with a box: with means along the rows, and means
/// of these along the columns. The radius is from 1 to 64.
pub open spec fn is_box_blur(p: Picture, q: Picture, w: nat, radius: u64) -> bool {
    is_of_size(p, w, p.len()) ==> exists|middle: Picture| #[trigger]
        is_blur_along(p, middle, w, brought_within(radius, 64), true) && is_blur_along(
            middle,
            q,
            w,
            brought_within(radius, 64),
            false,
        )
}

proof fn lemma_window_sum(
    p: Picture,
    w: int,
    x: int,
    y: int,
    m: Measure,
    f: spec_fn(Pixel) -> u8,
    r: int,
    in_row: bool,
    k: nat,
)
    requires
        is_of_size(p, w as nat, p.len()),
        0 <= x < w,
        0 <= y < p.len(),
        r >= 0,
        k <= 2 * r + 1,
        forall|q: Pixel| #[trigger] measured(q, m) == f(q),
    ensures
        ({
            let line = if in_row {
                p[y]
            } else {
                column_of(p, x)
            };
            let i = if in_row {
                x
            } else {
                y
            };
            window_sum(p, w, x, y, m, r, in_row, k) == added_up(
                window_of(line, i, r).map_values(f).take(k as int),
            )
        }),
        window_sum(p, w, x, y, m, r, in_row, k) <= 255 * k,
    decreases k,
{
    let line = if in_row {
        p[y]
    } else {
        column_of(p, x)
    };
    let i = if in_row {
        x
    } else {
        y
    };
    let all = window_of(line, i, r).map_values(f);
    if k > 0 {
        lemma_window_sum(p, w, x, y, m, f, r, in_row, (k - 1) as nat);
        assert(p[y].len() == w);
        assert(all.take(k as int).drop_last() =~= all.take(k - 1));
        let q = along(p, w, x, y, k - 1 - r, in_row);
        assert(window_of(line, i, r)[k - 1] == q);
        assert(all[k - 1] == measured(q, m));
    }
}

proof fn lemma_window_mean(
    p: Picture,
    w: int,
    x: int,
    y: int,
    m: Measure,
    f: spec_fn(Pixel) -> u8,
    r: int,
    in_row: bool,
)
    requires
        is_of_size(p, w as nat, p.len()),
        0 <= x < w,
        0 <= y < p.len(),
        r >= 0,
        forall|q: Pixel| #[trigger] measured(q, m) == f(q),
    ensures
        is_mean_of(
            window_mean(p, w, x, y, m, r, in_row),
            (if in_row {
                window_of(p[y], x, r)
            } else {
                window_of(column_of(p, x), y, r)
            }).map_values(f),
        ),
{
    let n = (2 * r + 1) as nat;
    let of = if in_row {
        window_of(p[y], x, r)
    } else {
        window_of(column_of(p, x), y, r)
    };
    let all = of.map_values(f);
    lemma_window_sum(p, w, x, y, m, f, r, in_row, n);
    assert(all.take(n as int) =~= all);
    let total = window_sum(p, w, x, y, m, r, in_row, n);
    let v = total / n;
    assert(v <= 255 && v * n <= total < (v + 1) * n) by (nonlinear_arith)
        requires
            n >= 1,
            total <= 255 * n,
            v == total / n,
    ;
}

proof fn lemma_blur_along(p: Picture, w: nat, r: int, in_row: bool)
    requires
        is_of_size(p, w, p.len()),
        r >= 0,
    ensures
        is_blur_along(p, blurred(p, w, r, in_row), w, r, in_row),
{
    let q = blurred(p, w, r, in_row);
    assert forall|x: int, y: int|
        #![trigger q[y][x]]
        0 <= x < w && 0 <= y < p.len() implies q[y][x].a == p[y][x].a && is_mean_pixel(
        q[y][x],
        if in_row {
            window_of(p[y], x, r)
        } else {
            window_of(column_of(p, x), y, r)
        },
    ) by {
        let wi = w as int;
        lemma_window_mean(p, wi, x, y, Measure::Red, |o: Pixel| o.r, r, in_row);
        lemma_window_mean(p, wi, x, y, Measure::Green, |o: Pixel| o.g, r, in_row);
        lemma_window_mean(p, wi, x, y, Measure::Blue, |o: Pixel| o.b, r, in_row);
    }
}

/// A blurred picture has in each color the means of that color around each pixel, and each
/// pixel keeps its opacity.
pub proof fn box_blur_takes_means(p: Picture, w: nat, radius: u64)
    ensures
        is_box_blur(
            p,
            blurred(blurred(p, w, blur_radius(radius), true), w, blur_radius(radius), false),
            w,
            radius,
        ),
{
    let r = brought_within(radius, 64);
    assert(r == blur_radius(radius));
    if is_of_size(p, w, p.len()) {
        let middle = blurred(p, w, r, true);
        lemma_blur_along(p, w, r, true);
        lemma_blur_along(middle, w, r, false);
        assert(is_blur_along(p, middle, w, r, true) && is_blur_along(
            middle,
            blurred(middle, w, r, false),
            w,
            r,
            false,
        ));
    }
}

proof fn lemma_mean_of_equals(v: u8, c: u8, vs: Seq<u8>)
    requires
        vs.len() > 0,
        forall|i: int| 0 <= i < vs.len() ==> vs[i] == c,
        is_mean_of(v, vs),
    ensures
        v == c,
{
    lemma_added_equals(c, vs);
    let n = vs.len();
    assert(v == c) by (nonlinear_arith)
        requires
            v * n <= c * n < (v + 1) * n,
            n > 0,
            0 <= v,
            0 <= c,
    ;
}

proof fn lemma_added_equals(c: u8, vs: Seq<u8>)
    requires
        forall|i: int| 0 <= i < vs.len() ==> vs[i] == c,
    ensures
        added_up(vs) == c * vs.len(),
    decreases vs.len(),
{
    if vs.len() > 0 {
        let front = vs.drop_last();
        assert forall|i: int| 0 <= i < front.len() implies front[i] == c by {
            assert(vs[i] == c);
        }
        lemma_added_equals(c, front);
        assert(vs[vs.len() - 1] == c);
        assert(c * vs.len() == c * front.len() + c) by (nonlinear_arith)
            requires
                vs.len() == front.len() + 1,
        ;
    }
}

/// Whether all pixels of a picture have one color.
pub open spec fn is_one_color(p: Picture, w: nat, c: Pixel) -> bool {
    is_of_size(p, w, p.len()) && forall|x: int, y: int|
        #![trigger p[y][x]]
        0 <= x < w && 0 <= y < p.len() ==> p[y][x] == c
}

proof fn lemma_blur_one_color(p: Picture, q: Picture, w: nat, r: int, in_row: bool, c: Pixel)
    requires
        is_one_color(p, w, c),
        is_blur_along(p, q, w, r, in_row),
        r >= 0,
    ensures
        q == p,
{
    assert forall|y: int| 0 <= y < p.len() implies q[y] == p[y] by {
        assert(p[y].len() == w);
        assert(q[y].len() == w);
        assert forall|x: int| 0 <= x < w implies q[y][x] == p[y][x] by {
            let of = if in_row {
                window_of(p[y], x, r)
            } else {
                window_of(column_of(p, x), y, r)
            };
            assert(p[y][x] == c);
            assert forall|k: int| 0 <= k < of.len() implies of[k] == c by {
                if in_row {
                    let i = if x + k - r < 0 {
                        0
                    } else if x + k - r > w - 1 {
                        w - 1
                    } else {
                        x + k - r
                    };
                    assert(p[y][i] == c);
                } else {
                    let i = if y + k - r < 0 {
                        0
                    } else if y + k - r > p.len() - 1 {
                        p.len() - 1
                    } else {
                        y + k - r
                    };
                    assert(p[i][x] == c);
                }
            }
            lemma_mean_of_equals(q[y][x].r, c.r, of.map_values(|o: Pixel| o.r));
            lemma_mean_of_equals(q[y][x].g, c.g, of.map_values(|o: Pixel| o.g));
            lemma_mean_of_equals(q[y][x].b, c.b, of.map_values(|o: Pixel| o.b));
        }
        assert(q[y] =~= p[y]);
    }
    assert(q =~= p);
}

/// Blurring a picture of one color gives that picture back.
pub proof fn one_color_stays_when_blurred(p: Picture, w: nat, radius: u64, c: Pixel)
    requires
        is_one_color(p, w, c),
    ensures
        blurred(blurred(p, w, blur_radius(radius), true), w, blur_radius(radius), false) == p,
{
    let r = blur_radius(radius);
    let middle = blurred(p, w, r, true);
    lemma_blur_along(p, w, r, true);
    lemma_blur_one_color(p, middle, w, r, true, c);
    lemma_blur_along(p, w, r, false);
    lemma_blur_one_color(p, blurred(p, w, r, false), w, r, false, c);
}

/// A pixel with its colors in other places: green, blue, red.
pub open spec fn turned_colors(q: Pixel) -> Pixel {
    Pixel { r: q.g, g: q.b, b: q.r, a: q.a }
}

/// A pixel with red and green exchanged.
pub open spec fn exchanged_colors(q: Pixel) -> Pixel {
    Pixel { r: q.g, g: q.r, b: q.b, a: q.a }
}

/// A picture with each pixel changed by itself.
pub open spec fn each_pixel(p: Picture, f: spec_fn(Pixel) -> Pixel) -> Picture {
    Seq::new(p.len(), |y: int| Seq::new(p[y].len(), |x: int| f(p[y][x])))
}

proof fn lemma_sums_follow(
    p: Picture,
    q: Picture,
    w: int,
    x: int,
    y: int,
    m: Measure,
    n: Measure,
    r: int,
    in_row: bool,
    k: nat,
)
    requires
        is_of_size(p, w as nat, p.len()),
        is_of_size(q, w as nat, p.len()),
        0 <= x < w,
        0 <= y < p.len(),
        forall|i: int, j: int|
            #![trigger p[j][i]]
            0 <= i < w && 0 <= j < p.len() ==> measured(q[j][i], n) == measured(p[j][i], m),
    ensures
        window_sum(q, w, x, y, n, r, in_row, k) == window_sum(p, w, x, y, m, r, in_row, k),
    decreases k,
{
    if k > 0 {
        lemma_sums_follow(p, q, w, x, y, m, n, r, in_row, (k - 1) as nat);
        let d = k - 1 - r;
        if in_row {
            assert(measured(q[y][nearest(x + d, w)], n) == measured(p[y][nearest(x + d, w)], m));
        } else {
            let j = nearest(y + d, p.len() as int);
            assert(measured(q[j][x], n) == measured(p[j][x], m));
        }
    }
}

proof fn lemma_blur_follows(p: Picture, w: nat, r: int, in_row: bool)
    requires
        is_of_size(p, w, p.len()),
    ensures
        blurred(each_pixel(p, |q: Pixel| turned_colors(q)), w, r, in_row) == each_pixel(
            blurred(p, w, r, in_row),
            |q: Pixel| turned_colors(q),
        ),
        blurred(each_pixel(p, |q: Pixel| exchanged_colors(q)), w, r, in_row) == each_pixel(
            blurred(p, w, r, in_row),
            |q: Pixel| exchanged_colors(q),
        ),
{
    let turned = each_pixel(p, |q: Pixel| turned_colors(q));
    let swapped = each_pixel(p, |q: Pixel| exchanged_colors(q));
    let wi = w as int;
    assert forall|y: int| 0 <= y < p.len() implies turned[y].len() == w && swapped[y].len() == w by {
        assert(p[y].len() == w);
    }
    let b = blurred(p, w, r, in_row);
    let bt = blurred(turned, w, r, in_row);
    let bs = blurred(swapped, w, r, in_row);
    assert forall|x: int, y: int| 0 <= x < w && 0 <= y < p.len() implies bt[y][x]
        == turned_colors(b[y][x]) && bs[y][x] == exchanged_colors(b[y][x]) by {
        let n = (2 * r + 1) as nat;
        let (cr, cg, cb) = (Measure::Red, Measure::Green, Measure::Blue);
        assert forall|i: int, j: int|
            #![trigger p[j][i]]
            0 <= i < w && 0 <= j < p.len() implies turned[j][i] == turned_colors(p[j][i])
            && swapped[j][i] == exchanged_colors(p[j][i]) by {
            assert(p[j].len() == w);
        }
        lemma_sums_follow(p, turned, wi, x, y, cg, cr, r, in_row, n);
        lemma_sums_follow(p, turned, wi, x, y, cb, cg, r, in_row, n);
        lemma_sums_follow(p, turned, wi, x, y, cr, cb, r, in_row, n);
        lemma_sums_follow(p, swapped, wi, x, y, cg, cr, r, in_row, n);
        lemma_sums_follow(p, swapped, wi, x, y, cr, cg, r, in_row, n);
        lemma_sums_follow(p, swapped, wi, x, y, cb, cb, r, in_row, n);
        assert(p[y][x] == p[y][x]);
    }
    let want_t = each_pixel(b, |q: Pixel| turned_colors(q));
    let want_s = each_pixel(b, |q: Pixel| exchanged_colors(q));
    assert forall|y: int| 0 <= y < p.len() implies bt[y] == want_t[y] && bs[y] == want_s[y] by {
        assert(bt[y] =~= want_t[y]);
        assert(bs[y] =~= want_s[y]);
    }
    assert(bt =~= want_t);
    assert(bs =~= want_s);
}

/// Each color is blurred by itself: colors that change places in a picture change places in
/// the blurred one.
pub proof fn colors_are_blurred_apart(p: Picture, w: nat, radius: u64)
    requires
        is_of_size(p, w, p.len()),
    ensures
        ({
            let r = blur_radius(radius);
            let f = |q: Pixel| turned_colors(q);
            blurred(blurred(each_pixel(p, f), w, r, true), w, r, false) == each_pixel(
                blurred(blurred(p, w, r, true), w, r, false),
                f,
            )
        }),
        ({
            let r = blur_radius(radius);
            let f = |q: Pixel| exchanged_colors(q);
            blurred(blurred(each_pixel(p, f), w, r, true), w, r, false) == each_pixel(
                blurred(blurred(p, w, r, true), w, r, false),
                f,
            )
        }),
{
    let r = blur_radius(radius);
    let middle = blurred(p, w, r, true);
    lemma_blur_follows(p, w, r, true);
    assert(is_of_size(middle, w, middle.len()));
    lemma_blur_follows(middle, w, r, false);
}

// ── what growing and shrinking do ───────────────────────────────────────────

/// Whether a position of a picture is another one or lies beside it.
pub open spec fn is_beside(p: Picture, w: nat, x: int, y: int, i: int, j: int) -> bool {
    0 <= i < w && 0 <= j < p.len() && x - 1 <= i <= x + 1 && y - 1 <= j <= y + 1
}

/// Whether a value is the largest, or the smallest, of what the pixels around one measure,
/// itself among them.
pub open spec fn is_spread_of(
    v: u8,
    p: Picture,
    w: nat,
    x: int,
    y: int,
    f: spec_fn(Pixel) -> u8,
    grow: bool,
) -> bool {
    &&& exists|i: int, j: int|
        #![trigger p[j][i]]
        is_beside(p, w, x, y, i, j) && f(p[j][i]) == v
    &&& forall|i: int, j: int|
        #![trigger p[j][i]]
        is_beside(p, w, x, y, i, j) ==> if grow {
            f(p[j][i]) <= v
        } else {
            f(p[j][i]) >= v
        }
}

/// Whether each pixel of a picture has in each color the largest, or the smallest, value of
/// it and its neighbours, and its own opacity.
pub open spec fn is_spread(p: Picture, q: Picture, w: nat, grow: bool) -> bool {
    &&& is_of_size(q, w, p.len())
    &&& forall|x: int, y: int|
        #![trigger q[y][x]]
        0 <= x < w && 0 <= y < p.len() ==> {
            &&& q[y][x].a == p[y][x].a
            &&& is_spread_of(q[y][x].r, p, w, x, y, |o: Pixel| o.r, grow)
            &&& is_spread_of(q[y][x].g, p, w, x, y, |o: Pixel| o.g, grow)
            &&& is_spread_of(q[y][x].b, p, w, x, y, |o: Pixel| o.b, grow)
        }
}

/// Whether a picture comes of another by growing or shrinking it as often as is asked for,
/// from once to sixteen times.
pub open spec fn is_spread_times(p: Picture, q: Picture, w: nat, grow: bool, asked: u64) -> bool {
    let n = brought_within(asked, 16);
    is_of_size(p, w, p.len()) ==> exists|steps: Seq<Picture>|
        #![trigger steps.len()]
        {
            &&& steps.len() == n + 1
            &&& steps[0] == p
            &&& steps[n] == q
            &&& forall|i: int| 0 <= i < n ==> is_spread(#[trigger] steps[i], steps[i + 1], w, grow)
        }
}

proof fn lemma_extreme_is_one(
    p: Picture,
    w: int,
    x: int,
    y: int,
    m: Measure,
    grow: bool,
    k: nat,
) -> (j: int)
    requires
        0 < k,
    ensures
        0 <= j < k,
        extreme(p, w, x, y, m, grow, k) == measured(neighbour(p, w, x, y, j), m),
    decreases k,
{
    if k == 1 {
        assert(extreme(p, w, x, y, m, grow, 0) == if grow {
            0u8
        } else {
            255u8
        });
        0
    } else {
        let j = lemma_extreme_is_one(p, w, x, y, m, grow, (k - 1) as nat);
        if extreme(p, w, x, y, m, grow, k) == extreme(p, w, x, y, m, grow, (k - 1) as nat) {
            j
        } else {
            k - 1
        }
    }
}

proof fn lemma_spread_of(
    p: Picture,
    w: nat,
    x: int,
    y: int,
    m: Measure,
    f: spec_fn(Pixel) -> u8,
    grow: bool,
)
    requires
        is_of_size(p, w, p.len()),
        0 <= x < w,
        0 <= y < p.len(),
        forall|q: Pixel| #[trigger] measured(q, m) == f(q),
    ensures
        is_spread_of(extreme(p, w as int, x, y, m, grow, 9), p, w, x, y, f, grow),
{
    let wi = w as int;
    let v = extreme(p, wi, x, y, m, grow, 9);
    let k = lemma_extreme_is_one(p, wi, x, y, m, grow, 9);
    let i = nearest(x + k % 3 - 1, wi);
    let j = nearest(y + k / 3 - 1, p.len() as int);
    assert(is_beside(p, w, x, y, i, j) && f(p[j][i]) == v);
    assert forall|i: int, j: int|
        #![trigger p[j][i]]
        is_beside(p, w, x, y, i, j) implies if grow {
        f(p[j][i]) <= v
    } else {
        f(p[j][i]) >= v
    } by {
        let n = (j - y + 1) * 3 + (i - x + 1);
        assert(n / 3 == j - y + 1 && n % 3 == i - x + 1);
        assert(neighbour(p, wi, x, y, n) == p[j][i]);
        lemma_extreme(p, wi, x, y, m, grow, 9, n as nat);
    }
}

proof fn lemma_spread(p: Picture, w: nat, grow: bool)
    requires
        is_of_size(p, w, p.len()),
    ensures
        is_spread(p, morphed(p, w, grow), w, grow),
{
    let q = morphed(p, w, grow);
    assert forall|x: int, y: int|
        #![trigger q[y][x]]
        0 <= x < w && 0 <= y < p.len() implies {
        &&& q[y][x].a == p[y][x].a
        &&& is_spread_of(q[y][x].r, p, w, x, y, |o: Pixel| o.r, grow)
        &&& is_spread_of(q[y][x].g, p, w, x, y, |o: Pixel| o.g, grow)
        &&& is_spread_of(q[y][x].b, p, w, x, y, |o: Pixel| o.b, grow)
    } by {
        lemma_spread_of(p, w, x, y, Measure::Red, |o: Pixel| o.r, grow);
        lemma_spread_of(p, w, x, y, Measure::Green, |o: Pixel| o.g, grow);
        lemma_spread_of(p, w, x, y, Measure::Blue, |o: Pixel| o.b, grow);
    }
}

proof fn lemma_steps(p: Picture, w: nat, grow: bool, n: nat) -> (steps: Seq<Picture>)
    requires
        is_of_size(p, w, p.len()),
    ensures
        steps.len() == n + 1,
        steps[0] == p,
        steps[n as int] == morphed_times(p, w, grow, n),
        is_of_size(steps[n as int], w, p.len()),
        forall|i: int| 0 <= i < n ==> is_spread(#[trigger] steps[i], steps[i + 1], w, grow),
    decreases n,
{
    if n == 0 {
        seq![p]
    } else {
        let before = lemma_steps(p, w, grow, (n - 1) as nat);
        let last = before[n - 1];
        lemma_spread(last, w, grow);
        let steps = before.push(morphed(last, w, grow));
        assert forall|i: int| 0 <= i < n implies is_spread(
            #[trigger] steps[i],
            steps[i + 1],
            w,
            grow,
        ) by {
            assert(steps[i] == before[i]);
            if i < n - 1 {
                assert(steps[i + 1] == before[i + 1]);
            }
        }
        steps
    }
}

/// A picture that is grown or shrunk has, round by round, the largest or the smallest colors
/// of each pixel and its neighbours.
pub proof fn spreading_goes_round_by_round(p: Picture, w: nat, grow: bool, asked: u64)
    ensures
        is_spread_times(p, morphed_times(p, w, grow, rounds(asked)), w, grow, asked),
{
    if is_of_size(p, w, p.len()) {
        let steps = lemma_steps(p, w, grow, rounds(asked));
        assert(steps.len() == rounds(asked) + 1);
    }
}

} // verus!
