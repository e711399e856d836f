//! Rectangles, circles, ellipses and polygons drawn on pictures.

use crate::color::Pixel;
use crate::compose::{are_bytes_of, covers, from_bytes, pixel_in, to_bytes};
use crate::raster::{copy_image, picture, Image, Picture};
use vstd::prelude::*;

verus! {

/// The picture that bytes hold.
pub open spec fn shown(bytes: Seq<u8>, w: nat, h: nat) -> Picture {
    picture(w, h, |x: int, y: int| pixel_in(bytes, w as int, x, y))
}

/// Whether one picture is another one of `w` columns after its bytes were drawn on.
pub open spec fn redrawn(
    before: Picture,
    after: Picture,
    w: int,
    draw: spec_fn(Seq<u8>) -> Seq<u8>,
) -> bool {
    exists|bytes: Seq<u8>| #[trigger]
        are_bytes_of(bytes, w, before) && after == shown(draw(bytes), w as nat, before.len())
}

/// Whether the pixels of one picture are those of another or have the color of a pen.
pub open spec fn only_inked(before: Picture, after: Picture, w: int, pen: Pixel) -> bool {
    &&& after.len() == before.len()
    &&& forall|x: int, y: int|
        #![trigger after[y][x]]
        0 <= x < w && 0 <= y < before.len() ==> after[y][x] == before[y][x] || after[y][x] == pen
}

/// The same of bytes.
pub open spec fn only_ink(before: Seq<u8>, after: Seq<u8>, w: u32, h: u32, pen: Pixel) -> bool {
    &&& after.len() == before.len()
    &&& forall|x: int, y: int|
        #![trigger pixel_in(after, w as int, x, y)]
        0 <= x < w && 0 <= y < h ==> pixel_in(after, w as int, x, y) == pixel_in(
            before,
            w as int,
            x,
            y,
        ) || pixel_in(after, w as int, x, y) == pen
}

/// Whether sums and differences of a few such coordinates fit in 32 bits.
pub open spec fn is_near(n: int) -> bool {
    -0x1000_0000 <= n <= 0x1000_0000
}

/// Whether a coordinate is one to draw at.
pub fn is_drawable(n: i32) -> (r: bool)
    ensures
        r == is_near(n as int),
{
    -0x1000_0000 <= n && n <= 0x1000_0000
}

proof fn lemma_inked(
    before: Picture,
    w: u32,
    h: u32,
    from: Seq<u8>,
    to: Seq<u8>,
    pen: Pixel,
)
    requires
        are_bytes_of(from, w as int, before),
        before.len() == h,
        only_ink(from, to, w, h, pen),
    ensures
        only_inked(before, shown(to, w as nat, h as nat), w as int, pen),
{
    let after = shown(to, w as nat, h as nat);
    assert forall|x: int, y: int|
        #![trigger after[y][x]]
        0 <= x < w && 0 <= y < before.len() implies after[y][x] == before[y][x] || after[y][x]
        == pen by {
        assert(after[y][x] == pixel_in(to, w as int, x, y));
        assert(pixel_in(from, w as int, x, y) == before[y][x]);
    }
}

// ── rectangles ──────────────────────────────────────────────────────────────

/// `imageproc::drawing::draw_filled_rect_mut` on an RGBA picture: the pixels inside the
/// rectangle get the color, as far as the picture goes, and the others stay. The call
/// panics where an edge of the rectangle or the size of the picture is no `i32`.
#[verifier::external_body]
fn filled_rect_bytes(
    bytes: Vec<u8>,
    w: u32,
    h: u32,
    x: i32,
    y: i32,
    width: u32,
    height: u32,
    pen: Pixel,
) -> (r: Vec<u8>)
    requires
        bytes@.len() == 4 * (w * h),
        w <= i32::MAX,
        h <= i32::MAX,
        0 < width,
        0 < height,
        x + width <= i32::MAX,
        y + height <= i32::MAX,
        width <= i32::MAX,
        height <= i32::MAX,
    ensures
        r@.len() == bytes@.len(),
        forall|px: int, py: int|
            #![trigger pixel_in(r@, w as int, px, py)]
            0 <= px < w && 0 <= py < h ==> pixel_in(r@, w as int, px, py) == if covers(
                x as int,
                y as int,
                width as int,
                height as int,
                px,
                py,
            ) {
                pen
            } else {
                pixel_in(bytes@, w as int, px, py)
            },
{
    let mut img = image::RgbaImage::from_raw(w, h, bytes).unwrap();
    let rect = imageproc::rect::Rect::at(x, y).of_size(width, height);
    let color = image::Rgba([pen.r, pen.g, pen.b, pen.a]);
    imageproc::drawing::draw_filled_rect_mut(&mut img, rect, color);
    img.into_raw()
}

/// The bytes of a picture after the outline of a rectangle was drawn, as `imageproc` does.
pub uninterp spec fn outlined_rect(
    bytes: Seq<u8>,
    w: u32,
    h: u32,
    x: i32,
    y: i32,
    width: u32,
    height: u32,
    pen: Pixel,
) -> Seq<u8>;

/// `imageproc::drawing::draw_hollow_rect_mut` on an RGBA picture: some pixels get the color
/// and the others stay. Which do is named here, not spelled out. The call panics where an
/// edge of the rectangle is no `i32`.
#[verifier::external_body]
fn hollow_rect_bytes(
    bytes: Vec<u8>,
    w: u32,
    h: u32,
    x: i32,
    y: i32,
    width: u32,
    height: u32,
    pen: Pixel,
) -> (r: Vec<u8>)
    requires
        bytes@.len() == 4 * (w * h),
        0 < width,
        0 < height,
        is_near(x as int),
        is_near(y as int),
        is_near(width as int),
        is_near(height as int),
    ensures
        r@ == outlined_rect(bytes@, w, h, x, y, width, height, pen),
        only_ink(bytes@, r@, w, h, pen),
{
    let mut img = image::RgbaImage::from_raw(w, h, bytes).unwrap();
    let rect = imageproc::rect::Rect::at(x, y).of_size(width, height);
    let color = image::Rgba([pen.r, pen.g, pen.b, pen.a]);
    imageproc::drawing::draw_hollow_rect_mut(&mut img, rect, color);
    img.into_raw()
}

/// A side, which is one pixel at least.
pub open spec fn drawn_side(n: u32) -> u32 {
    if n == 0 {
        1
    } else {
        n
    }
}

/// A picture with a rectangle filled.
pub open spec fn with_rect(
    p: Picture,
    w: nat,
    x0: int,
    y0: int,
    width: int,
    height: int,
    pen: Pixel,
) -> Picture {
    picture(
        w,
        p.len(),
        |x: int, y: int|
            if covers(x0, y0, width, height, x, y) {
                pen
            } else {
                p[y][x]
            },
    )
}

/// Whether a box of `width` times `height` pixels has none in a picture of `w` times `h`.
pub open spec fn is_outside(
    w: int,
    h: int,
    x: int,
    y: int,
    width: int,
    height: int,
) -> bool {
    w == 0 || h == 0 || x >= w || y >= h || x + width <= 0 || y + height <= 0
}

/// Whether a rectangle is close enough to a picture to be drawn, or has no part in it.
pub open spec fn can_draw_rect(
    w: int,
    h: int,
    x: int,
    y: int,
    width: u32,
    height: u32,
    fill: bool,
) -> bool {
    ||| fill
    ||| is_near(x) && is_near(y) && is_near(width as int) && is_near(height as int)
    ||| is_outside(w, h, x, y, drawn_side(width) as int, drawn_side(height) as int)
}

/// Whether a rectangle can be drawn on a picture.
pub fn is_drawable_rect(
    img: &Image,
    x: i32,
    y: i32,
    width: u32,
    height: u32,
    fill: bool,
) -> (r: bool)
    requires
        img.wf(),
    ensures
        r == can_draw_rect(
            img.width as int,
            img@.len() as int,
            x as int,
            y as int,
            width,
            height,
            fill,
        ),
{
    let near = is_drawable(x) && is_drawable(y) && width <= 0x1000_0000 && height <= 0x1000_0000;
    fill || near || lies_outside(img, x as i64, y as i64, side(width), side(height))
}

fn side(n: u32) -> (r: i64)
    ensures
        r == drawn_side(n),
{
    if n == 0 {
        1
    } else {
        n as i64
    }
}

fn lies_outside(img: &Image, x: i64, y: i64, width: i64, height: i64) -> (r: bool)
    requires
        img.wf(),
        -0x1_0000_0000_0000 <= x <= 0x1_0000_0000_0000,
        -0x1_0000_0000_0000 <= y <= 0x1_0000_0000_0000,
        -0x1_0000_0000_0000 <= width <= 0x1_0000_0000_0000,
        -0x1_0000_0000_0000 <= height <= 0x1_0000_0000_0000,
    ensures
        r == is_outside(
            img.width as int,
            img@.len() as int,
            x as int,
            y as int,
            width as int,
            height as int,
        ),
{
    let h = img.height();
    img.width == 0 || h == 0 || x >= img.width as i64 || y >= h as i64 || x + width <= 0 || y
        + height <= 0
}

fn greater(a: i64, b: i64) -> (r: i64)
    ensures
        r == if a > b {
            a
        } else {
            b
        },
{
    if a > b {
        a
    } else {
        b
    }
}

fn lesser(a: i64, b: i64) -> (r: i64)
    ensures
        r == if a < b {
            a
        } else {
            b
        },
{
    if a < b {
        a
    } else {
        b
    }
}

/// Draws a rectangle, filled or as an outline; one that has no part in the picture leaves
/// it as it is.
pub fn op_img_draw_rect(
    img: &Image,
    x: i32,
    y: i32,
    width: u32,
    height: u32,
    pen: Pixel,
    fill: bool,
) -> (r: Image)
    requires
        img.wf(),
        img.width <= i32::MAX,
        img@.len() <= i32::MAX,
        can_draw_rect(
            img.width as int,
            img@.len() as int,
            x as int,
            y as int,
            width,
            height,
            fill,
        ),
    ensures
        r.wf(),
        r.width == img.width,
        only_inked(img@, r@, img.width as int, pen),
        fill ==> r@ == with_rect(
            img@,
            img.width as nat,
            x as int,
            y as int,
            drawn_side(width) as int,
            drawn_side(height) as int,
            pen,
        ),
        !fill ==> if is_outside(
            img.width as int,
            img@.len() as int,
            x as int,
            y as int,
            drawn_side(width) as int,
            drawn_side(height) as int,
        ) {
            r@ == img@
        } else {
            redrawn(
                img@,
                r@,
                img.width as int,
                |b: Seq<u8>|
                    outlined_rect(
                        b,
                        img.width,
                        img@.len() as u32,
                        x,
                        y,
                        drawn_side(width),
                        drawn_side(height),
                        pen,
                    ),
            )
        },
{
    let w = img.width;
    let h = img.height();
    let sw = side(width);
    let sh = side(height);
    let ghost want = with_rect(
        img@,
        w as nat,
        x as int,
        y as int,
        drawn_side(width) as int,
        drawn_side(height) as int,
        pen,
    );
    if lies_outside(img, x as i64, y as i64, sw, sh) {
        let r = copy_image(img);
        proof {
            assert forall|py: int| 0 <= py < h implies r@[py] == want[py] by {
                assert(img.rows@[py]@.len() == w);
                assert(r@[py] =~= want[py]);
            }
            assert(r@ =~= want);
        }
        return r;
    }
    let bytes = to_bytes(img);
    let ghost from = bytes@;
    if fill {
        let x0 = greater(x as i64, 0);
        let y0 = greater(y as i64, 0);
        let x1 = lesser(x as i64 + sw, w as i64);
        let y1 = lesser(y as i64 + sh, h as i64);
        let out = filled_rect_bytes(
            bytes,
            w,
            h,
            x0 as i32,
            y0 as i32,
            (x1 - x0) as u32,
            (y1 - y0) as u32,
            pen,
        );
        let r = from_bytes(&out, w, h);
        proof {
            assert forall|py: int| 0 <= py < h implies r@[py] == want[py] by {
                assert forall|px: int| 0 <= px < w implies r@[py][px] == want[py][px] by {
                    assert(r@[py][px] == pixel_in(out@, w as int, px, py));
                    assert(pixel_in(from, w as int, px, py) == img@[py][px]);
                }
                assert(r@[py] =~= want[py]);
            }
            assert(r@ =~= want);
        }
        r
    } else {
        let out = hollow_rect_bytes(bytes, w, h, x, y, sw as u32, sh as u32, pen);
        let r = from_bytes(&out, w, h);
        proof {
            assert(r@ == shown(out@, w as nat, h as nat));
            lemma_inked(img@, w, h, from, out@, pen);
        }
        r
    }
}

// ── circles ─────────────────────────────────────────────────────────────────

/// The bytes of a picture after a disc was drawn, as `imageproc` does.
pub uninterp spec fn filled_circle(
    bytes: Seq<u8>,
    w: u32,
    h: u32,
    x: i32,
    y: i32,
    radius: i32,
    pen: Pixel,
) -> Seq<u8>;

/// `imageproc::drawing::draw_filled_circle_mut` on an RGBA picture: some pixels get the
/// color and the others stay. Which change is named here, not spelled out. The call may
/// overflow far away from the picture.
#[verifier::external_body]
fn filled_circle_bytes(
    bytes: Vec<u8>,
    w: u32,
    h: u32,
    x: i32,
    y: i32,
    radius: i32,
    pen: Pixel,
) -> (r: Vec<u8>)
    requires
        bytes@.len() == 4 * (w * h),
        is_near(x as int),
        is_near(y as int),
        is_near(radius as int),
    ensures
        r@ == filled_circle(bytes@, w, h, x, y, radius, pen),
        only_ink(bytes@, r@, w, h, pen),
{
    let mut img = image::RgbaImage::from_raw(w, h, bytes).unwrap();
    let color = image::Rgba([pen.r, pen.g, pen.b, pen.a]);
    imageproc::drawing::draw_filled_circle_mut(&mut img, (x, y), radius, color);
    img.into_raw()
}

/// The bytes of a picture after a circle was drawn, as `imageproc` does.
pub uninterp spec fn hollow_circle(
    bytes: Seq<u8>,
    w: u32,
    h: u32,
    x: i32,
    y: i32,
    radius: i32,
    pen: Pixel,
) -> Seq<u8>;

/// `imageproc::drawing::draw_hollow_circle_mut` on an RGBA picture: some pixels get the
/// color and the others stay. Which change is named here, not spelled out. The call may
/// overflow far away from the picture.
#[verifier::external_body]
fn hollow_circle_bytes(
    bytes: Vec<u8>,
    w: u32,
    h: u32,
    x: i32,
    y: i32,
    radius: i32,
    pen: Pixel,
) -> (r: Vec<u8>)
    requires
        bytes@.len() == 4 * (w * h),
        is_near(x as int),
        is_near(y as int),
        is_near(radius as int),
    ensures
        r@ == hollow_circle(bytes@, w, h, x, y, radius, pen),
        only_ink(bytes@, r@, w, h, pen),
{
    let mut img = image::RgbaImage::from_raw(w, h, bytes).unwrap();
    let color = image::Rgba([pen.r, pen.g, pen.b, pen.a]);
    imageproc::drawing::draw_hollow_circle_mut(&mut img, (x, y), radius, color);
    img.into_raw()
}

/// The bytes of a picture after a disc or a circle was drawn.
pub open spec fn with_circle(
    bytes: Seq<u8>,
    w: u32,
    h: u32,
    x: i32,
    y: i32,
    radius: i32,
    pen: Pixel,
    fill: bool,
) -> Seq<u8> {
    if fill {
        filled_circle(bytes, w, h, x, y, radius, pen)
    } else {
        hollow_circle(bytes, w, h, x, y, radius, pen)
    }
}

/// Whether a circle has no part in a picture of `w` times `h` pixels; one with a negative
/// radius has none.
pub open spec fn circle_is_outside(w: int, h: int, x: int, y: int, radius: int) -> bool {
    radius < 0 || is_outside(w, h, x - radius, y - radius, 2 * radius + 1, 2 * radius + 1)
}

/// Whether a circle is close enough to a picture to be drawn, or has no part in it.
pub open spec fn can_draw_circle(w: int, h: int, x: int, y: int, radius: int) -> bool {
    is_near(x) && is_near(y) && is_near(radius) || circle_is_outside(w, h, x, y, radius)
}

fn circle_lies_outside(img: &Image, x: i32, y: i32, radius: i32) -> (r: bool)
    requires
        img.wf(),
    ensures
        r == circle_is_outside(
            img.width as int,
            img@.len() as int,
            x as int,
            y as int,
            radius as int,
        ),
{
    let d = radius as i64;
    radius < 0 || lies_outside(img, x as i64 - d, y as i64 - d, 2 * d + 1, 2 * d + 1)
}

/// Whether a circle can be drawn on a picture.
pub fn is_drawable_circle(img: &Image, x: i32, y: i32, radius: i32) -> (r: bool)
    requires
        img.wf(),
    ensures
        r == can_draw_circle(
            img.width as int,
            img@.len() as int,
            x as int,
            y as int,
            radius as int,
        ),
{
    (is_drawable(x) && is_drawable(y) && is_drawable(radius)) || circle_lies_outside(
        img,
        x,
        y,
        radius,
    )
}

/// Draws a circle, filled or as an outline; one that has no part in the picture leaves it
/// as it is.
pub fn op_img_draw_circle(
    img: &Image,
    x: i32,
    y: i32,
    radius: i32,
    pen: Pixel,
    fill: bool,
) -> (r: Image)
    requires
        img.wf(),
        can_draw_circle(
            img.width as int,
            img@.len() as int,
            x as int,
            y as int,
            radius as int,
        ),
    ensures
        r.wf(),
        r.width == img.width,
        only_inked(img@, r@, img.width as int, pen),
        if circle_is_outside(
            img.width as int,
            img@.len() as int,
            x as int,
            y as int,
            radius as int,
        ) {
            r@ == img@
        } else {
            redrawn(
                img@,
                r@,
                img.width as int,
                |b: Seq<u8>| with_circle(b, img.width, img@.len() as u32, x, y, radius, pen, fill),
            )
        },
{
    if circle_lies_outside(img, x, y, radius) {
        return copy_image(img);
    }
    let w = img.width;
    let h = img.height();
    let bytes = to_bytes(img);
    let ghost from = bytes@;
    let out = if fill {
        filled_circle_bytes(bytes, w, h, x, y, radius, pen)
    } else {
        hollow_circle_bytes(bytes, w, h, x, y, radius, pen)
    };
    let r = from_bytes(&out, w, h);
    proof {
        assert(r@ == shown(out@, w as nat, h as nat));
        lemma_inked(img@, w, h, from, out@, pen);
    }
    r
}

// ── ellipses ────────────────────────────────────────────────────────────────

/// The points of a filled ellipse that `imageproc` draws before it takes a power: those of
/// the rows at its top and its bottom, as long as they grow faster than they come nearer.
pub uninterp spec fn filled_caps(x: i32, y: i32, rx: i32, ry: i32) -> Set<(int, int)>;

/// The points of an ellipse that `imageproc` draws before it takes a power: those at its
/// top and its bottom, as long as they move faster sideways than they come nearer.
pub uninterp spec fn hollow_caps(x: i32, y: i32, rx: i32, ry: i32) -> Set<(int, int)>;

/// Whether a point of a picture of `w` times `h` pixels is counted in 31 bits, as its size
/// is.
pub open spec fn is_point(w: u32, h: u32, x: int, y: int) -> bool {
    0 <= x < w && 0 <= y < h && w <= i32::MAX && h <= i32::MAX
}

/// Whether bytes have a color at those points of a set that lie in the picture.
pub open spec fn inks(bytes: Seq<u8>, w: u32, h: u32, points: Set<(int, int)>, pen: Pixel) -> bool {
    forall|x: int, y: int|
        #![trigger pixel_in(bytes, w as int, x, y)]
        is_point(w, h, x, y) && points.contains((x, y)) ==> pixel_in(bytes, w as int, x, y) == pen
}

/// Whether a row is one that an ellipse is drawn in from its top to its bottom; with a radius
/// below zero only its ends are.
pub open spec fn is_axis_row(y: i32, ry: i32, row: int) -> bool {
    row == y + ry || row == y - ry || -ry <= row - y <= ry
}

/// `imageproc::drawing::draw_filled_ellipse_mut` on an RGBA picture: some pixels get the
/// color and the others stay; with equal radii it is a disc. The points that are drawn
/// before a power is taken, which are named here, get the color where they lie in the
/// picture. Whatever the power is, each row from the top to the bottom is drawn, through the
/// points straight above and below the center, so that these get the color too where
/// coordinates are exact in the numbers that lines are drawn with. Which other points change is left unsaid: it rests on a power whose precision differs between
/// machines. The call may overflow where the square of a radius does.
#[verifier::external_body]
fn filled_ellipse_bytes(
    bytes: Vec<u8>,
    w: u32,
    h: u32,
    x: i32,
    y: i32,
    rx: i32,
    ry: i32,
    pen: Pixel,
) -> (r: Vec<u8>)
    requires
        bytes@.len() == 4 * (w * h),
        is_near(x as int),
        is_near(y as int),
        is_radius(rx),
        is_radius(ry),
    ensures
        only_ink(bytes@, r@, w, h, pen),
        rx == ry ==> r@ == filled_circle(bytes@, w, h, x, y, rx, pen),
        rx != ry ==> inks(r@, w, h, filled_caps(x, y, rx, ry), pen),
        rx != ry ==> forall|row: int|
            #![trigger pixel_in(r@, w as int, x as int, row)]
            is_axis_row(y, ry, row) && x < 0x100_0000 && row < 0x100_0000 && is_point(
                w,
                h,
                x as int,
                row,
            ) ==> pixel_in(r@, w as int, x as int, row) == pen,
{
    let mut img = image::RgbaImage::from_raw(w, h, bytes).unwrap();
    let color = image::Rgba([pen.r, pen.g, pen.b, pen.a]);
    imageproc::drawing::draw_filled_ellipse_mut(&mut img, (x, y), rx, ry, color);
    img.into_raw()
}

/// `imageproc::drawing::draw_hollow_ellipse_mut` on an RGBA picture: some pixels get the
/// color and the others stay; with equal radii it is a circle. The points that are drawn
/// before a power is taken, which are named here, get the color where they lie in the
/// picture; the ones at the top and at the bottom, straight above and below the center, are
/// among them. Which other points change is left unsaid: it rests on a power whose precision
/// differs between machines. The call may overflow where the square of a radius does.
#[verifier::external_body]
fn hollow_ellipse_bytes(
    bytes: Vec<u8>,
    w: u32,
    h: u32,
    x: i32,
    y: i32,
    rx: i32,
    ry: i32,
    pen: Pixel,
) -> (r: Vec<u8>)
    requires
        bytes@.len() == 4 * (w * h),
        is_near(x as int),
        is_near(y as int),
        is_radius(rx),
        is_radius(ry),
    ensures
        only_ink(bytes@, r@, w, h, pen),
        rx == ry ==> r@ == hollow_circle(bytes@, w, h, x, y, rx, pen),
        rx != ry ==> inks(r@, w, h, hollow_caps(x, y, rx, ry), pen),
        rx != ry && is_point(w, h, x as int, y + ry) ==> pixel_in(r@, w as int, x as int, y + ry)
            == pen,
        rx != ry && is_point(w, h, x as int, y - ry) ==> pixel_in(r@, w as int, x as int, y - ry)
            == pen,
{
    let mut img = image::RgbaImage::from_raw(w, h, bytes).unwrap();
    let color = image::Rgba([pen.r, pen.g, pen.b, pen.a]);
    imageproc::drawing::draw_hollow_ellipse_mut(&mut img, (x, y), rx, ry, color);
    img.into_raw()
}

/// Whether the square of a radius fits in 32 bits.
pub open spec fn is_radius(n: i32) -> bool {
    -46340 < n <= 46340
}

pub open spec fn size_of(n: i32) -> int {
    if n < 0 {
        -n
    } else {
        n as int
    }
}

/// Whether an ellipse has no part in a picture of `w` times `h` pixels, nor any of the
/// points beside it that drawing one may touch.
pub open spec fn ellipse_is_outside(w: int, h: int, x: int, y: int, rx: i32, ry: i32) -> bool {
    let across = size_of(rx) + size_of(ry);
    let down = size_of(ry);
    is_outside(w, h, x - across, y - down, 2 * across + 1, 2 * down + 1)
}

/// Whether an ellipse is small and close enough to a picture to be drawn, or has no part in
/// it.
pub open spec fn can_draw_ellipse(w: int, h: int, x: int, y: int, rx: i32, ry: i32) -> bool {
    is_near(x) && is_near(y) && is_radius(rx) && is_radius(ry) || ellipse_is_outside(
        w,
        h,
        x,
        y,
        rx,
        ry,
    )
}

fn ellipse_lies_outside(img: &Image, x: i32, y: i32, rx: i32, ry: i32) -> (r: bool)
    requires
        img.wf(),
    ensures
        r == ellipse_is_outside(img.width as int, img@.len() as int, x as int, y as int, rx, ry),
{
    let a: i64 = if rx < 0 {
        -(rx as i64)
    } else {
        rx as i64
    };
    let down: i64 = if ry < 0 {
        -(ry as i64)
    } else {
        ry as i64
    };
    let across = a + down;
    lies_outside(img, x as i64 - across, y as i64 - down, 2 * across + 1, 2 * down + 1)
}

/// Whether an ellipse can be drawn on a picture.
pub fn is_drawable_ellipse(img: &Image, x: i32, y: i32, rx: i32, ry: i32) -> (r: bool)
    requires
        img.wf(),
    ensures
        r == can_draw_ellipse(img.width as int, img@.len() as int, x as int, y as int, rx, ry),
{
    let small = -46340 < rx && rx <= 46340 && -46340 < ry && ry <= 46340;
    (is_drawable(x) && is_drawable(y) && small) || ellipse_lies_outside(img, x, y, rx, ry)
}

/// Whether a picture has a color at those points of a set that lie in it.
pub open spec fn has_ink(p: Picture, w: u32, points: Set<(int, int)>, pen: Pixel) -> bool {
    forall|x: int, y: int|
        #![trigger p[y][x]]
        is_point(w, p.len() as u32, x, y) && points.contains((x, y)) ==> p[y][x] == pen
}

/// Draws an ellipse, filled or as an outline; one that has no part in the picture leaves it
/// as it is. The points straight above and below the center get the color; with equal radii
/// it is a circle.
pub fn op_img_draw_ellipse(
    img: &Image,
    x: i32,
    y: i32,
    rx: i32,
    ry: i32,
    pen: Pixel,
    fill: bool,
) -> (r: Image)
    requires
        img.wf(),
        can_draw_ellipse(img.width as int, img@.len() as int, x as int, y as int, rx, ry),
    ensures
        r.wf(),
        r.width == img.width,
        only_inked(img@, r@, img.width as int, pen),
        ({
            let w = img.width;
            let h = img@.len() as u32;
            if ellipse_is_outside(w as int, h as int, x as int, y as int, rx, ry) {
                r@ == img@
            } else if rx == ry {
                redrawn(
                    img@,
                    r@,
                    w as int,
                    |b: Seq<u8>| with_circle(b, w, h, x, y, rx, pen, fill),
                )
            } else {
                &&& has_ink(
                    r@,
                    w,
                    if fill {
                        filled_caps(x, y, rx, ry)
                    } else {
                        hollow_caps(x, y, rx, ry)
                    },
                    pen,
                )
                &&& forall|row: int|
                    #![trigger r@[row]]
                    is_point(w, h, x as int, row) && (if fill {
                        is_axis_row(y, ry, row) && x < 0x100_0000 && row < 0x100_0000
                    } else {
                        row == y + ry || row == y - ry
                    }) ==> r@[row][x as int] == pen
            }
        }),
{
    if ellipse_lies_outside(img, x, y, rx, ry) {
        return copy_image(img);
    }
    let w = img.width;
    let h = img.height();
    let bytes = to_bytes(img);
    let ghost from = bytes@;
    let out = if fill {
        filled_ellipse_bytes(bytes, w, h, x, y, rx, ry, pen)
    } else {
        hollow_ellipse_bytes(bytes, w, h, x, y, rx, ry, pen)
    };
    let r = from_bytes(&out, w, h);
    proof {
        assert(r@ == shown(out@, w as nat, h as nat));
        lemma_inked(img@, w, h, from, out@, pen);
        if rx != ry {
            let caps = if fill {
                filled_caps(x, y, rx, ry)
            } else {
                hollow_caps(x, y, rx, ry)
            };
            assert forall|px: int, py: int|
                #![trigger r@[py][px]]
                is_point(w, h, px, py) && caps.contains((px, py)) implies r@[py][px] == pen by {
                assert(r@[py][px] == pixel_in(out@, w as int, px, py));
            }
            assert forall|row: int|
                #![trigger r@[row]]
                is_point(w, h, x as int, row) && (if fill {
                    is_axis_row(y, ry, row) && x < 0x100_0000 && row < 0x100_0000
                } else {
                    row == y + ry || row == y - ry
                }) implies r@[row][x as int] == pen by {
                assert(r@[row][x as int] == pixel_in(out@, w as int, x as int, row));
            }
        }
    }
    r
}

// ── polygons ────────────────────────────────────────────────────────────────

/// The bytes of a picture after a polygon was filled, as `imageproc` does.
pub uninterp spec fn filled_polygon(
    bytes: Seq<u8>,
    w: u32,
    h: u32,
    corners: Seq<(i32, i32)>,
    pen: Pixel,
) -> Seq<u8>;

pub open spec fn are_near(corners: Seq<(i32, i32)>) -> bool {
    forall|i: int|
        0 <= i < corners.len() ==> is_near((#[trigger] corners[i]).0 as int) && is_near(
            corners[i].1 as int,
        )
}

/// `imageproc::drawing::draw_polygon_mut` on an RGBA picture: some pixels get the color and
/// the others stay. Which change is named here, not spelled out. The call may overflow far
/// away from the picture, and draws outside one that has columns and no rows.
#[verifier::external_body]
fn polygon_bytes(
    bytes: Vec<u8>,
    w: u32,
    h: u32,
    corners: &Vec<(i32, i32)>,
    pen: Pixel,
) -> (r: Vec<u8>)
    requires
        bytes@.len() == 4 * (w * h),
        w <= i32::MAX,
        h <= i32::MAX,
        w == 0 || h > 0,
        are_near(corners@),
    ensures
        r@ == filled_polygon(bytes@, w, h, corners@, pen),
        only_ink(bytes@, r@, w, h, pen),
{
    let mut img = image::RgbaImage::from_raw(w, h, bytes).unwrap();
    let points: Vec<imageproc::point::Point<i32>> =
        corners.iter().map(|c| imageproc::point::Point::new(c.0, c.1)).collect();
    let color = image::Rgba([pen.r, pen.g, pen.b, pen.a]);
    imageproc::drawing::draw_polygon_mut(&mut img, &points, color);
    img.into_raw()
}

/// Whether all corners lie on one side of a picture of `w` times `h` pixels, or there are no
/// corners or no pixels.
pub open spec fn polygon_is_outside(w: int, h: int, corners: Seq<(i32, i32)>) -> bool {
    ||| w == 0 || h == 0
    ||| forall|i: int| 0 <= i < corners.len() ==> (#[trigger] corners[i]).0 < 0
    ||| forall|i: int| 0 <= i < corners.len() ==> (#[trigger] corners[i]).1 < 0
    ||| forall|i: int| 0 <= i < corners.len() ==> (#[trigger] corners[i]).0 >= w
    ||| forall|i: int| 0 <= i < corners.len() ==> (#[trigger] corners[i]).1 >= h
}

fn polygon_lies_outside(img: &Image, corners: &Vec<(i32, i32)>) -> (r: bool)
    requires
        img.wf(),
    ensures
        r == polygon_is_outside(img.width as int, img@.len() as int, corners@),
{
    let w = img.width as i64;
    let h = img.height() as i64;
    let mut left = true;
    let mut above = true;
    let mut right = true;
    let mut below = true;
    let mut i: usize = 0;
    while i < corners.len()
        invariant
            i <= corners@.len(),
            w == img.width,
            h == img@.len(),
            left == (forall|k: int| 0 <= k < i ==> (#[trigger] corners@[k]).0 < 0),
            above == (forall|k: int| 0 <= k < i ==> (#[trigger] corners@[k]).1 < 0),
            right == (forall|k: int| 0 <= k < i ==> (#[trigger] corners@[k]).0 >= w),
            below == (forall|k: int| 0 <= k < i ==> (#[trigger] corners@[k]).1 >= h),
        decreases corners@.len() - i,
    {
        let c = corners[i];
        assert(corners@[i as int] == c);
        left = left && c.0 < 0;
        above = above && c.1 < 0;
        right = right && c.0 as i64 >= w;
        below = below && c.1 as i64 >= h;
        i = i + 1;
    }
    w == 0 || h == 0 || left || above || right || below
}

/// Whether a polygon is close enough to a picture to be drawn, or has no part in it.
pub open spec fn can_draw_polygon(w: int, h: int, corners: Seq<(i32, i32)>) -> bool {
    w <= i32::MAX && h <= i32::MAX && are_near(corners) || polygon_is_outside(w, h, corners)
}

/// Whether a polygon can be drawn on a picture.
pub fn is_drawable_polygon(img: &Image, corners: &Vec<(i32, i32)>) -> (r: bool)
    requires
        img.wf(),
    ensures
        r == can_draw_polygon(img.width as int, img@.len() as int, corners@),
{
    is_near_polygon(img, corners) || polygon_lies_outside(img, corners)
}

fn is_near_polygon(img: &Image, corners: &Vec<(i32, i32)>) -> (r: bool)
    requires
        img.wf(),
    ensures
        r == (img.width <= i32::MAX && img@.len() <= i32::MAX && are_near(corners@)),
{
    let h = img.height();
    if img.width > i32::MAX as u32 || h > i32::MAX as u32 {
        return false;
    }
    let mut i: usize = 0;
    while i < corners.len()
        invariant
            i <= corners@.len(),
            are_near(corners@.take(i as int)),
            img.width <= i32::MAX && img@.len() <= i32::MAX,
        decreases corners@.len() - i,
    {
        let c = corners[i];
        if !is_drawable(c.0) || !is_drawable(c.1) {
            assert(corners@[i as int] == c);
            return false;
        }
        assert forall|k: int| 0 <= k < i + 1 implies is_near(
            (#[trigger] corners@.take(i + 1)[k]).0 as int,
        ) && is_near(corners@.take(i + 1)[k].1 as int) by {
            if k < i {
                assert(corners@.take(i as int)[k] == corners@[k]);
            }
        }
        i = i + 1;
    }
    assert(corners@.take(i as int) =~= corners@);
    true
}

/// Fills a polygon; one whose corners lie on one side of the picture leaves it as it is.
pub fn draw_polygon(img: &Image, corners: &Vec<(i32, i32)>, pen: Pixel) -> (r: Image)
    requires
        img.wf(),
        can_draw_polygon(img.width as int, img@.len() as int, corners@),
    ensures
        r.wf(),
        r.width == img.width,
        only_inked(img@, r@, img.width as int, pen),
        if polygon_is_outside(img.width as int, img@.len() as int, corners@) {
            r@ == img@
        } else {
            redrawn(
                img@,
                r@,
                img.width as int,
                |b: Seq<u8>| filled_polygon(b, img.width, img@.len() as u32, corners@, pen),
            )
        },
{
    if polygon_lies_outside(img, corners) {
        return copy_image(img);
    }
    let w = img.width;
    let h = img.height();
    let bytes = to_bytes(img);
    let ghost from = bytes@;
    let out = polygon_bytes(bytes, w, h, corners, pen);
    let r = from_bytes(&out, w, h);
    proof {
        assert(r@ == shown(out@, w as nat, h as nat));
        lemma_inked(img@, w, h, from, out@, pen);
    }
    r
}

} // verus!
