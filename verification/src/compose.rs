//! Pictures set on pictures: pasting, borders, montages and shadows.

use crate::color::Pixel;
use crate::flows::{in_32_bits, largest_side, lay_tiles, row_count, tile_start, tiled_side, Tiling};
use crate::raster::{build, picture, solid, Image, Picture};
use vstd::prelude::*;

verus! {

// ── bytes ───────────────────────────────────────────────────────────────────

/// Where the four bytes of a pixel start in rows of `w` pixels.
pub open spec fn byte_at(w: int, x: int, y: int) -> int {
    4 * (y * w + x)
}

/// The pixel at column `x` of row `y`.
pub open spec fn pixel_in(bytes: Seq<u8>, w: int, x: int, y: int) -> Pixel {
    let i = byte_at(w, x, y);
    Pixel { r: bytes[i], g: bytes[i + 1], b: bytes[i + 2], a: bytes[i + 3] }
}

/// Whether bytes hold a picture, four for each pixel, row by row.
pub open spec fn are_bytes_of(bytes: Seq<u8>, w: int, p: Picture) -> bool {
    &&& bytes.len() == 4 * (w * p.len())
    &&& forall|x: int, y: int|
        #![trigger pixel_in(bytes, w, x, y)]
        0 <= x < w && 0 <= y < p.len() ==> pixel_in(bytes, w, x, y) == p[y][x]
}

proof fn lemma_byte_order(w: int, x: int, y: int, xx: int, yy: int)
    requires
        0 <= xx < w,
        0 <= yy,
        yy < y || (yy == y && xx < x),
        0 <= x <= w,
    ensures
        0 <= byte_at(w, xx, yy),
        byte_at(w, xx, yy) + 4 <= byte_at(w, x, y),
{
    if yy < y {
        assert(yy * w + w <= y * w) by (nonlinear_arith)
            requires
                yy + 1 <= y,
                w >= 0,
        ;
    }
    assert(0 <= yy * w) by (nonlinear_arith)
        requires
            0 <= yy,
            0 <= w,
    ;
}

proof fn lemma_byte_end(w: int, h: int, x: int, y: int)
    requires
        0 <= x < w,
        0 <= y < h,
    ensures
        0 <= byte_at(w, x, y),
        byte_at(w, x, y) + 4 <= 4 * (w * h),
{
    lemma_byte_order(w, 0, h, x, y);
    assert(h * w == w * h) by (nonlinear_arith);
}

/// The bytes of a picture, four for each pixel, row by row.
pub fn to_bytes(img: &Image) -> (r: Vec<u8>)
    requires
        img.wf(),
    ensures
        are_bytes_of(r@, img.width as int, img@),
{
    let ghost w = img.width as int;
    let h: usize = img.rows.len();
    let mut out: Vec<u8> = Vec::new();
    let mut y: usize = 0;
    assert(byte_at(w, 0, 0) == 0) by {
        assert(0 * w == 0);
    }
    while y < h
        invariant
            y <= h,
            h == img.rows@.len(),
            img.wf(),
            w == img.width,
            out@.len() == byte_at(w, 0, y as int),
            forall|xx: int, yy: int|
                #![trigger pixel_in(out@, w, xx, yy)]
                0 <= xx < w && 0 <= yy < y ==> pixel_in(out@, w, xx, yy) == img@[yy][xx],
        decreases h - y,
    {
        let mut x: usize = 0;
        assert(img.rows@[y as int]@.len() == w);
        while x < img.width as usize
            invariant
                x <= w,
                y < h,
                h == img.rows@.len(),
                img.wf(),
                w == img.width,
                img.rows@[y as int]@.len() == w,
                out@.len() == byte_at(w, x as int, y as int),
                forall|xx: int, yy: int|
                    #![trigger pixel_in(out@, w, xx, yy)]
                    0 <= xx < w && 0 <= yy && (yy < y || (yy == y && xx < x)) ==> pixel_in(
                        out@,
                        w,
                        xx,
                        yy,
                    ) == img@[yy][xx],
            decreases w - x,
        {
            let p = img.rows[y][x];
            let ghost was = out@;
            out.push(p.r);
            out.push(p.g);
            out.push(p.b);
            out.push(p.a);
            assert forall|xx: int, yy: int|
                #![trigger pixel_in(out@, w, xx, yy)]
                0 <= xx < w && 0 <= yy && (yy < y || (yy == y && xx < x + 1)) implies pixel_in(
                out@,
                w,
                xx,
                yy,
            ) == img@[yy][xx] by {
                if yy < y || xx < x {
                    lemma_byte_order(w, x as int, y as int, xx, yy);
                    assert(pixel_in(was, w, xx, yy) == img@[yy][xx]);
                    let i = byte_at(w, xx, yy);
                    assert(out@[i] == was[i] && out@[i + 1] == was[i + 1] && out@[i + 2] == was[i
                        + 2] && out@[i + 3] == was[i + 3]);
                } else {
                    assert(pixel_in(out@, w, xx, yy) == p);
                }
            }
            x = x + 1;
        }
        assert(byte_at(w, w, y as int) == byte_at(w, 0, y + 1)) by {
            assert(y * w + w == (y + 1) * w) by (nonlinear_arith);
        }
        y = y + 1;
    }
    assert(h * w == w * h) by (nonlinear_arith);
    out
}

/// The picture that bytes hold.
pub fn from_bytes(bytes: &Vec<u8>, w: u32, h: u32) -> (r: Image)
    requires
        bytes@.len() == 4 * (w * h),
    ensures
        r.wf(),
        r.width == w,
        r@ == picture(w as nat, h as nat, |x: int, y: int| pixel_in(bytes@, w as int, x, y)),
{
    let f = |x: usize, y: usize| -> (p: Pixel)
        requires
            x < w,
            y < h,
            bytes@.len() == 4 * (w * h),
        ensures
            p == pixel_in(bytes@, w as int, x as int, y as int),
        {
            let total: usize = bytes.len();
            proof {
                lemma_byte_end(w as int, h as int, x as int, y as int);
                assert(4 * (y * w + x) + 4 <= total);
                assert(0 <= y * w) by (nonlinear_arith)
                    requires
                        y >= 0,
                        w >= 0,
                ;
            }
            let row: usize = y * w as usize;
            let i: usize = 4 * (row + x);
            Pixel { r: bytes[i], g: bytes[i + 1], b: bytes[i + 2], a: bytes[i + 3] }
        };
    build(w, h, &f, Ghost(|x: int, y: int| pixel_in(bytes@, w as int, x, y)))
}

/// A picture comes back from its bytes.
pub proof fn bytes_give_the_picture_back(bytes: Seq<u8>, w: nat, p: Picture)
    requires
        are_bytes_of(bytes, w as int, p),
        forall|y: int| 0 <= y < p.len() ==> (#[trigger] p[y]).len() == w,
    ensures
        picture(w, p.len(), |x: int, y: int| pixel_in(bytes, w as int, x, y)) == p,
{
    let q = picture(w, p.len(), |x: int, y: int| pixel_in(bytes, w as int, x, y));
    assert forall|y: int| 0 <= y < p.len() implies q[y] == p[y] by {
        assert(p[y].len() == w);
        assert forall|x: int| 0 <= x < w implies q[y][x] == p[y][x] by {
            assert(pixel_in(bytes, w as int, x, y) == p[y][x]);
        }
        assert(q[y] =~= p[y]);
    }
    assert(q =~= p);
}

// ── pasting ─────────────────────────────────────────────────────────────────

/// What a pixel becomes where another one is laid over it, as `image` blends the two.
pub uninterp spec fn blended(bottom: Pixel, top: Pixel) -> Pixel;

/// `image::imageops::overlay` of one RGBA picture over another: each pixel that the upper
/// picture covers becomes its blend with the upper one's pixel, which is named here and
/// not spelled out; it is the lower pixel where the upper one is clear, and the upper one
/// where that is opaque. The other pixels stay.
#[verifier::external_body]
fn overlay_bytes(
    bottom: Vec<u8>,
    bw: u32,
    bh: u32,
    top: Vec<u8>,
    tw: u32,
    th: u32,
    x: i64,
    y: i64,
) -> (r: Vec<u8>)
    requires
        bottom@.len() == 4 * (bw * bh),
        top@.len() == 4 * (tw * th),
    ensures
        r@.len() == bottom@.len(),
        forall|px: int, py: int|
            #![trigger pixel_in(r@, bw as int, px, py)]
            0 <= px < bw && 0 <= py < bh ==> {
                let under = pixel_in(bottom@, bw as int, px, py);
                let over = pixel_in(top@, tw as int, px - x, py - y);
                &&& x <= px < x + tw && y <= py < y + th ==> pixel_in(r@, bw as int, px, py)
                    == blended(under, over)
                &&& x <= px < x + tw && y <= py < y + th && over.a == 0 ==> pixel_in(
                    r@,
                    bw as int,
                    px,
                    py,
                ) == under
                &&& x <= px < x + tw && y <= py < y + th && over.a == 255 ==> pixel_in(
                    r@,
                    bw as int,
                    px,
                    py,
                ) == over
                &&& !(x <= px < x + tw && y <= py < y + th) ==> pixel_in(r@, bw as int, px, py)
                    == under
            },
{
    let mut under = image::RgbaImage::from_raw(bw, bh, bottom).unwrap();
    let over = image::RgbaImage::from_raw(tw, th, top).unwrap();
    image::imageops::overlay(&mut under, &over, x, y);
    under.into_raw()
}

/// Whether a picture of `w` times `h` pixels that starts at `x0`, `y0` covers a position.
pub open spec fn covers(x0: int, y0: int, w: int, h: int, x: int, y: int) -> bool {
    x0 <= x < x0 + w && y0 <= y < y0 + h
}

/// A picture with another one laid over it.
pub open spec fn pasted(
    base: Picture,
    w: nat,
    top: Picture,
    top_width: int,
    x0: int,
    y0: int,
) -> Picture {
    picture(
        w,
        base.len(),
        |x: int, y: int|
            if covers(x0, y0, top_width, top.len() as int, x, y) {
                blended(base[y][x], top[y - y0][x - x0])
            } else {
                base[y][x]
            },
    )
}

/// Lays one picture over another. Where the upper one is clear the lower one stays, and
/// where it is opaque it takes the lower one's place.
pub fn op_img_paste(base: &Image, top: &Image, x: i64, y: i64) -> (r: Image)
    requires
        base.wf(),
        top.wf(),
    ensures
        r.wf(),
        r.width == base.width,
        r@ == pasted(base@, base.width as nat, top@, top.width as int, x as int, y as int),
        forall|px: int, py: int|
            #![trigger r@[py][px]]
            0 <= px < base.width && 0 <= py < base@.len() && covers(
                x as int,
                y as int,
                top.width as int,
                top@.len() as int,
                px,
                py,
            ) ==> {
                let over = top@[py - y][px - x];
                (over.a == 0 ==> r@[py][px] == base@[py][px]) && (over.a == 255 ==> r@[py][px]
                    == over)
            },
{
    let bw = base.width;
    let bh = base.height();
    let tw = top.width;
    let th = top.height();
    let under = to_bytes(base);
    let over = to_bytes(top);
    let ghost ub = under@;
    let ghost ob = over@;
    let bytes = overlay_bytes(under, bw, bh, over, tw, th, x, y);
    let r = from_bytes(&bytes, bw, bh);
    proof {
        let want = pasted(base@, bw as nat, top@, tw as int, x as int, y as int);
        assert forall|py: int| 0 <= py < bh implies r@[py] == want[py] by {
            assert forall|px: int| 0 <= px < bw implies r@[py][px] == want[py][px] by {
                assert(r@[py][px] == pixel_in(bytes@, bw as int, px, py));
                assert(pixel_in(ub, bw as int, px, py) == base@[py][px]);
                if covers(x as int, y as int, tw as int, th as int, px, py) {
                    assert(pixel_in(ob, tw as int, px - x, py - y) == top@[py - y][px - x]);
                }
            }
            assert(r@[py] =~= want[py]);
        }
        assert(r@ =~= want);
        assert forall|px: int, py: int|
            #![trigger r@[py][px]]
            0 <= px < bw && 0 <= py < bh && covers(x as int, y as int, tw as int, th as int, px, py)
                implies {
            let over = top@[py - y][px - x];
            (over.a == 0 ==> r@[py][px] == base@[py][px]) && (over.a == 255 ==> r@[py][px] == over)
        } by {
            assert(r@[py][px] == pixel_in(bytes@, bw as int, px, py));
            assert(pixel_in(ub, bw as int, px, py) == base@[py][px]);
            assert(pixel_in(ob, tw as int, px - x, py - y) == top@[py - y][px - x]);
        }
    }
    r
}

/// A picture of one color.
pub open spec fn plain(w: nat, h: nat, c: Pixel) -> Picture {
    picture(w, h, |x: int, y: int| c)
}

/// Sets a picture in a border of a color.
pub fn op_img_border(img: &Image, size: u32, c: Pixel) -> (r: Image)
    requires
        img.wf(),
        img.width + 2 * size <= u32::MAX,
        img@.len() + 2 * size <= u32::MAX,
    ensures
        r.wf(),
        r.width == img.width + 2 * size,
        r@ == pasted(
            plain((img.width + 2 * size) as nat, img@.len() + 2 * size as nat, c),
            (img.width + 2 * size) as nat,
            img@,
            img.width as int,
            size as int,
            size as int,
        ),
{
    let w = img.width + 2 * size;
    let h = img.height() + 2 * size;
    let ground = solid(w, h, c);
    assert(ground@ =~= plain(w as nat, h as nat, c));
    op_img_paste(&ground, img, size as i64, size as i64)
}

// ── montage ─────────────────────────────────────────────────────────────────

pub open spec fn sizes_of(imgs: Seq<Image>) -> Seq<(u32, u32)> {
    Seq::new(imgs.len(), |i: int| (imgs[i].width, imgs[i]@.len() as u32))
}

/// The first `n` pictures laid over a ground, one after the other.
pub open spec fn laid(
    ground: Picture,
    w: nat,
    imgs: Seq<Image>,
    places: Seq<(u32, u32)>,
    n: nat,
) -> Picture
    decreases n,
{
    if n == 0 || n > imgs.len() {
        ground
    } else {
        pasted(
            laid(ground, w, imgs, places, (n - 1) as nat),
            w,
            imgs[n - 1]@,
            imgs[n - 1].width as int,
            places[n - 1].0 as int,
            places[n - 1].1 as int,
        )
    }
}

/// Where the tiles of pictures stand.
pub open spec fn tile_places(sizes: Seq<(u32, u32)>, cols: int, gap: u32) -> Seq<(u32, u32)> {
    Seq::new(
        sizes.len(),
        |i: int|
            (
                tile_start(i % cols, largest_side(sizes, true, sizes.len()), gap),
                tile_start(i / cols, largest_side(sizes, false, sizes.len()), gap),
            ),
    )
}

/// A montage of pictures: tiles in rows, with gaps round them.
pub open spec fn montage(imgs: Seq<Image>, cols: int, gap: u32, ground: Pixel) -> Picture {
    let sizes = sizes_of(imgs);
    let w = tiled_side(cols, largest_side(sizes, true, sizes.len()), gap);
    let h = tiled_side(
        row_count(sizes.len() as int, cols),
        largest_side(sizes, false, sizes.len()),
        gap,
    );
    laid(
        plain(w as nat, h as nat, ground),
        w as nat,
        imgs,
        tile_places(sizes, cols, gap),
        imgs.len(),
    )
}

/// Sets pictures side by side in rows.
pub fn op_img_montage(imgs: &Vec<Image>, cols: u64, gap: u32, ground: Pixel) -> (r: Image)
    requires
        cols >= 1,
        forall|i: int| 0 <= i < imgs@.len() ==> (#[trigger] imgs@[i]).wf(),
    ensures
        r.wf(),
        r.width == tiled_side(
            cols as int,
            largest_side(sizes_of(imgs@), true, imgs@.len()),
            gap,
        ),
        r@ == montage(imgs@, cols as int, gap, ground),
{
    let total: usize = imgs.len();
    let ghost all = sizes_of(imgs@);
    let mut sizes: Vec<(u32, u32)> = Vec::new();
    let mut i: usize = 0;
    while i < total
        invariant
            i <= total,
            total == imgs@.len(),
            forall|i: int| 0 <= i < imgs@.len() ==> (#[trigger] imgs@[i]).wf(),
            all == sizes_of(imgs@),
            sizes@ == all.take(i as int),
        decreases total - i,
    {
        assert(imgs@[i as int].wf());
        sizes.push((imgs[i].width, imgs[i].height()));
        i = i + 1;
        assert(sizes@ =~= all.take(i as int));
    }
    assert(sizes@ =~= all);
    let t: Tiling = lay_tiles(&sizes, cols, gap);
    assert(t.places@ =~= tile_places(all, cols as int, gap));
    let mut out = solid(t.width, t.height, ground);
    let ghost w = t.width as nat;
    let ghost start = plain(w, t.height as nat, ground);
    assert(out@ =~= start);
    let mut k: usize = 0;
    while k < total
        invariant
            k <= total,
            total == imgs@.len(),
            forall|i: int| 0 <= i < imgs@.len() ==> (#[trigger] imgs@[i]).wf(),
            t.places@.len() == total,
            out.wf(),
            out.width == w,
            out@ == laid(start, w, imgs@, t.places@, k as nat),
        decreases total - k,
    {
        assert(imgs@[k as int].wf());
        out = op_img_paste(&out, &imgs[k], t.places[k].0 as i64, t.places[k].1 as i64);
        k = k + 1;
    }
    out
}

// ── shadows ─────────────────────────────────────────────────────────────────

/// How far a shadow reaches round a picture: three times its blur, and as far as it is
/// moved.
pub open spec fn shadow_pad(blur: int, dx: int, dy: int) -> u32 {
    let ax = if dx < 0 {
        -dx
    } else {
        dx
    };
    let ay = if dy < 0 {
        -dy
    } else {
        dy
    };
    let reach = blur * 3 + if ax > ay {
        ax
    } else {
        ay
    };
    in_32_bits(
        if reach < 1 {
            1
        } else {
            reach
        },
    )
}

pub fn pad_for_shadow(blur: i64, dx: i64, dy: i64) -> (pad: u32)
    ensures
        pad == shadow_pad(blur as int, dx as int, dy as int),
{
    let ax: i128 = if dx < 0 {
        -(dx as i128)
    } else {
        dx as i128
    };
    let ay: i128 = if dy < 0 {
        -(dy as i128)
    } else {
        dy as i128
    };
    let reach: i128 = blur as i128 * 3 + if ax > ay {
        ax
    } else {
        ay
    };
    let kept: u128 = if reach < 1 {
        1
    } else {
        reach as u128
    };
    (kept % 0x1_0000_0000) as u32
}

/// The shadow of a picture before it is blurred: each pixel that is not clear, moved, in
/// the color of the shadow and as opaque as the table says.
pub open spec fn silhouette(
    p: Picture,
    w: int,
    pad: int,
    dx: int,
    dy: int,
    c: Pixel,
    table: Seq<u8>,
) -> Picture {
    picture(
        (w + 2 * pad) as nat,
        (p.len() + 2 * pad) as nat,
        |x: int, y: int|
            {
                let sx = x - pad - dx;
                let sy = y - pad - dy;
                if 0 <= sx < w && 0 <= sy < p.len() && p[sy][sx].a > 0 {
                    Pixel { r: c.r, g: c.g, b: c.b, a: table[p[sy][sx].a as int] }
                } else {
                    Pixel { r: 0, g: 0, b: 0, a: 0 }
                }
            },
    )
}

/// Draws the shadow of a picture.
pub fn op_img_drop_shadow(img: &Image, pad: u32, dx: i64, dy: i64, c: Pixel, table: &Vec<u8>) -> (r:
    Image)
    requires
        img.wf(),
        img.width + 2 * pad <= u32::MAX,
        img@.len() + 2 * pad <= u32::MAX,
        table@.len() == 256,
    ensures
        r.wf(),
        r.width == img.width + 2 * pad,
        r@ == silhouette(
            img@,
            img.width as int,
            pad as int,
            dx as int,
            dy as int,
            c,
            table@,
        ),
{
    let w = img.width + 2 * pad;
    let h = img.height() + 2 * pad;
    let f = |x: usize, y: usize| -> (p: Pixel)
        requires
            x < w,
            y < h,
            img.wf(),
            table@.len() == 256,
        ensures
            p == ({
                let sx = x - pad - dx;
                let sy = y - pad - dy;
                if 0 <= sx < img.width && 0 <= sy < img@.len() && img@[sy][sx].a > 0 {
                    Pixel { r: c.r, g: c.g, b: c.b, a: table@[img@[sy][sx].a as int] }
                } else {
                    Pixel { r: 0, g: 0, b: 0, a: 0 }
                }
            }),
        {
            let sx: i128 = x as i128 - pad as i128 - dx as i128;
            let sy: i128 = y as i128 - pad as i128 - dy as i128;
            if 0 <= sx && sx < img.width as i128 && 0 <= sy && sy < img.rows.len() as i128 {
                assert(img.rows@[sy as int]@.len() == img.width);
                let p = img.rows[sy as usize][sx as usize];
                if p.a > 0 {
                    Pixel { r: c.r, g: c.g, b: c.b, a: table[p.a as usize] }
                } else {
                    Pixel { r: 0, g: 0, b: 0, a: 0 }
                }
            } else {
                Pixel { r: 0, g: 0, b: 0, a: 0 }
            }
        };
    let ghost g = |x: int, y: int|
        {
            let sx = x - pad - dx;
            let sy = y - pad - dy;
            if 0 <= sx < img.width && 0 <= sy < img@.len() && img@[sy][sx].a > 0 {
                Pixel { r: c.r, g: c.g, b: c.b, a: table@[img@[sy][sx].a as int] }
            } else {
                Pixel { r: 0, g: 0, b: 0, a: 0 }
            }
        };
    let r = build(w, h, &f, Ghost(g));
    proof {
        let want = silhouette(
            img@,
            img.width as int,
            pad as int,
            dx as int,
            dy as int,
            c,
            table@,
        );
        assert forall|y: int| 0 <= y < want.len() implies r@[y] == want[y] by {
            assert(r@[y] =~= want[y]);
        }
        assert(r@ =~= want);
    }
    r
}

// ── despeckling ─────────────────────────────────────────────────────────────

/// The bytes of a picture after a median filter, as `imageproc` computes it.
pub uninterp spec fn median_of(bytes: Seq<u8>, w: u32, h: u32, radius: u32) -> Seq<u8>;

/// `imageproc::filter::median_filter` of an RGBA picture with one radius for both
/// directions; the result has the picture's size, and is named here, not spelled out.
#[verifier::external_body]
fn median_bytes(bytes: Vec<u8>, w: u32, h: u32, radius: u32) -> (r: Vec<u8>)
    requires
        bytes@.len() == 4 * (w * h),
        radius <= 23169,
        w + radius <= i32::MAX,
        h + radius <= i32::MAX,
    ensures
        r@ == median_of(bytes@, w, h, radius),
        r@.len() == bytes@.len(),
{
    let img = image::RgbaImage::from_raw(w, h, bytes).unwrap();
    imageproc::filter::median_filter(&img, radius, radius).into_raw()
}

/// Replaces each pixel by the median of those round it.
pub fn op_img_median(img: &Image, radius: u32) -> (r: Image)
    requires
        img.wf(),
        radius <= 23169,
        img.width + radius <= i32::MAX,
        img@.len() + radius <= i32::MAX,
    ensures
        r.wf(),
        r.width == img.width,
        exists|bytes: Seq<u8>| #[trigger]
            are_bytes_of(bytes, img.width as int, img@) && r@ == picture(
                img.width as nat,
                img@.len(),
                |x: int, y: int|
                    pixel_in(
                        median_of(bytes, img.width, img@.len() as u32, radius),
                        img.width as int,
                        x,
                        y,
                    ),
            ),
{
    let bytes = to_bytes(img);
    let ghost b = bytes@;
    let h = img.height();
    let out = median_bytes(bytes, img.width, h, radius);
    from_bytes(&out, img.width, h)
}

/// A picture that is laid over another one changes just the pixels that it covers, each by the
/// pixel that lies over it; a border is as wide on each side, in one color.
pub proof fn what_is_laid_over_covers(
    base: Picture,
    w: nat,
    top: Picture,
    tw: int,
    x0: int,
    y0: int,
    x: int,
    y: int,
)
    requires
        0 <= x < w,
        0 <= y < base.len(),
    ensures
        ({
            let out = pasted(base, w, top, tw, x0, y0);
            let (tx, ty) = (x - x0, y - y0);
            &&& out.len() == base.len() && out[y].len() == w
            &&& 0 <= tx < tw && 0 <= ty < top.len() ==> out[y][x] == blended(base[y][x], top[ty][tx])
            &&& !(0 <= tx < tw && 0 <= ty < top.len()) ==> out[y][x] == base[y][x]
        }),
{
}

/// A border surrounds a picture with its color, and leaves the picture in the middle.
pub proof fn borders_surround_the_picture(p: Picture, pw: nat, size: nat, c: Pixel, x: int, y: int)
    requires
        0 <= x < pw + 2 * size,
        0 <= y < p.len() + 2 * size,
    ensures
        ({
            let out = pasted(
                plain(pw + 2 * size, p.len() + 2 * size, c),
                pw + 2 * size,
                p,
                pw as int,
                size as int,
                size as int,
            );
            let (sx, sy) = (x - size, y - size);
            &&& 0 <= sx < pw && 0 <= sy < p.len() ==> out[y][x] == blended(c, p[sy][sx])
            &&& !(0 <= sx < pw && 0 <= sy < p.len()) ==> out[y][x] == c
        }),
{
}

/// A shadow has each pixel of a picture that is not clear, moved and in its own color, and
/// nothing else.
pub proof fn shadows_follow_the_picture(
    p: Picture,
    w: int,
    pad: int,
    dx: int,
    dy: int,
    c: Pixel,
    table: Seq<u8>,
    x: int,
    y: int,
)
    requires
        0 <= x < w + 2 * pad,
        0 <= y < p.len() + 2 * pad,
    ensures
        ({
            let out = silhouette(p, w, pad, dx, dy, c, table);
            let (sx, sy) = (x - pad - dx, y - pad - dy);
            let from = 0 <= sx < w && 0 <= sy < p.len() && p[sy][sx].a != 0;
            &&& out.len() == p.len() + 2 * pad && out[y].len() == w + 2 * pad
            &&& from ==> out[y][x] == (Pixel { a: table[p[sy][sx].a as int], ..c })
            &&& !from ==> out[y][x] == (Pixel { r: 0, g: 0, b: 0, a: 0 })
        }),
{
}

/// The tiles of a montage stand in rows: the first in the corner, each other one beside the one
/// before it or, where a row is full, at the start of the next; a tile is as wide as the widest
/// picture and as high as the highest, and gaps stand between them.
pub proof fn tiles_stand_in_rows(sizes: Seq<(u32, u32)>, cols: int, gap: u32, i: int)
    requires
        cols > 0,
        0 <= i,
        i + 1 < sizes.len(),
        gap + cols * (largest_side(sizes, true, sizes.len()) + gap) <= u32::MAX,
        gap + sizes.len() * (largest_side(sizes, false, sizes.len()) + gap) <= u32::MAX,
    ensures
        ({
            let at = tile_places(sizes, cols, gap);
            let w = largest_side(sizes, true, sizes.len());
            let h = largest_side(sizes, false, sizes.len());
            &&& at.len() == sizes.len()
            &&& at[0] == (gap, gap)
            &&& (i + 1) % cols != 0 ==> at[i + 1].0 == at[i].0 + w + gap && at[i + 1].1 == at[i].1
            &&& (i + 1) % cols == 0 ==> at[i + 1].0 == gap && at[i + 1].1 == at[i].1 + h + gap
            &&& sizes[i].0 <= w
            &&& sizes[i].1 <= h
            &&& exists|k: int| 0 <= k < sizes.len() && (#[trigger] sizes[k]).0 == w
            &&& exists|k: int| 0 <= k < sizes.len() && (#[trigger] sizes[k]).1 == h
        }),
{
    let at = tile_places(sizes, cols, gap);
    let n = sizes.len() as int;
    let w = largest_side(sizes, true, sizes.len());
    let h = largest_side(sizes, false, sizes.len());
    lemma_largest(sizes, true, sizes.len());
    lemma_largest(sizes, false, sizes.len());
    vstd::arithmetic::div_mod::lemma_fundamental_div_mod(i, cols);
    vstd::arithmetic::div_mod::lemma_fundamental_div_mod(i + 1, cols);
    let q = i / cols;
    let r = i % cols;
    assert(0 <= r < cols);
    assert(0 <= q <= i) by (nonlinear_arith)
        requires
            i == cols * q + r,
            0 <= r < cols,
            0 <= i,
            cols > 0,
    ;
    if r + 1 < cols {
        vstd::arithmetic::div_mod::lemma_fundamental_div_mod_converse(i + 1, cols, q, r + 1);
    } else {
        assert(i + 1 == cols * (q + 1)) by (nonlinear_arith)
            requires
                i == cols * q + r,
                r + 1 == cols,
        ;
        assert(i + 1 == (q + 1) * cols + 0) by (nonlinear_arith)
            requires
                i + 1 == cols * (q + 1),
        ;
        vstd::arithmetic::div_mod::lemma_fundamental_div_mod_converse(i + 1, cols, q + 1, 0);
    }
    let a = w + gap;
    let b = h + gap;
    assert(0 <= r * a && r * a + a <= cols * a && (r + 1) * a == r * a + a) by (nonlinear_arith)
        requires
            0 <= r < cols,
            a >= 0,
    ;
    assert(0 <= q * b && q * b + b <= n * b && (q + 1) * b == q * b + b) by (nonlinear_arith)
        requires
            0 <= q < n,
            b >= 0,
    ;
    if r + 1 < cols {
        assert((r + 1) * a <= cols * a) by (nonlinear_arith)
            requires
                r + 1 < cols,
                a >= 0,
        ;
    }
    assert(0 * a == 0 && 0 * b == 0);
    assert(0int / cols == 0 && 0int % cols == 0) by {
        vstd::arithmetic::div_mod::lemma_fundamental_div_mod_converse(0, cols, 0, 0);
    }
    assert(at[0] == (gap, gap));
}

proof fn lemma_largest(sizes: Seq<(u32, u32)>, widths: bool, n: nat)
    requires
        n <= sizes.len(),
    ensures
        forall|k: int|
            0 <= k < n ==> (if widths {
                (#[trigger] sizes[k]).0
            } else {
                sizes[k].1
            }) <= largest_side(sizes, widths, n),
        n > 0 && widths ==> exists|k: int|
            0 <= k < n && (#[trigger] sizes[k]).0 == largest_side(sizes, widths, n),
        n > 0 && !widths ==> exists|k: int|
            0 <= k < n && (#[trigger] sizes[k]).1 == largest_side(sizes, widths, n),
    decreases n,
{
    if n > 0 {
        lemma_largest(sizes, widths, (n - 1) as nat);
        let was = largest_side(sizes, widths, (n - 1) as nat);
        let now = largest_side(sizes, widths, n);
        let here = if widths {
            sizes[n - 1].0
        } else {
            sizes[n - 1].1
        };
        if here > was {
            assert(now == here);
        } else if n > 1 {
            assert(now == was);
        }
    }
}

} // verus!
