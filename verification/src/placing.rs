//! Pixels moved as they are, whatever they are made of: crops, quarter turns and flips.

use crate::flows::in_32_bits;
use crate::value::{req_u64_img, required_u64, Json, Value};
use vstd::prelude::*;

verus! {

/// How the pixels of an image are moved.
#[derive(Clone, Copy, PartialEq, Eq, Structural)]
pub enum Placement {
    /// A quarter turn, clockwise.
    Quarter,
    Half,
    ThreeQuarters,
    /// Side to side.
    Mirror,
    /// Top to bottom.
    Overturn,
    /// The part that starts at column `x` of row `y`, as far as the image goes.
    Crop { x: u32, y: u32, width: u32, height: u32 },
}

/// Rows of pixels.
pub type Pixels<T> = Seq<Seq<T>>;

pub open spec fn pixels_of<T>(rows: Seq<Vec<T>>) -> Pixels<T> {
    Seq::new(rows.len(), |y: int| rows[y]@)
}

/// Whether every row has `w` pixels.
pub open spec fn is_even<T>(p: Pixels<T>, w: int) -> bool {
    forall|y: int| 0 <= y < p.len() ==> (#[trigger] p[y]).len() == w
}

pub open spec fn lesser(a: int, b: int) -> int {
    if a < b {
        a
    } else {
        b
    }
}

/// The width and the height of an image of `w` by `h` pixels once they are moved.
pub open spec fn placed_size(how: Placement, w: int, h: int) -> (int, int) {
    match how {
        Placement::Quarter | Placement::ThreeQuarters => (h, w),
        Placement::Half | Placement::Mirror | Placement::Overturn => (w, h),
        Placement::Crop { x, y, width, height } => (
            lesser(width as int, w - lesser(x as int, w)),
            lesser(height as int, h - lesser(y as int, h)),
        ),
    }
}

/// Where the pixel comes from that ends up at column `x` of row `y`.
pub open spec fn source_of(how: Placement, w: int, h: int, x: int, y: int) -> (int, int) {
    match how {
        Placement::Quarter => (y, h - 1 - x),
        Placement::Half => (w - 1 - x, h - 1 - y),
        Placement::ThreeQuarters => (w - 1 - y, x),
        Placement::Mirror => (w - 1 - x, y),
        Placement::Overturn => (x, h - 1 - y),
        Placement::Crop { x: left, y: top, .. } => (left + x, top + y),
    }
}

/// An image of `w` columns with its pixels moved.
pub open spec fn placed<T>(p: Pixels<T>, w: int, how: Placement) -> Pixels<T> {
    let h = p.len() as int;
    let size = placed_size(how, w, h);
    Seq::new(
        size.1 as nat,
        |y: int|
            Seq::new(
                size.0 as nat,
                |x: int| p[source_of(how, w, h, x, y).1][source_of(how, w, h, x, y).0],
            ),
    )
}

fn least(a: u32, b: u32) -> (r: u32)
    ensures
        r == lesser(a as int, b as int),
{
    if a < b {
        a
    } else {
        b
    }
}

/// The width and the height of an image once its pixels are moved.
pub fn new_size(how: Placement, w: u32, h: u32) -> (r: (u32, u32))
    ensures
        r.0 == placed_size(how, w as int, h as int).0,
        r.1 == placed_size(how, w as int, h as int).1,
{
    match how {
        Placement::Quarter | Placement::ThreeQuarters => (h, w),
        Placement::Half | Placement::Mirror | Placement::Overturn => (w, h),
        Placement::Crop { x, y, width, height } => (
            least(width, w - least(x, w)),
            least(height, h - least(y, h)),
        ),
    }
}

fn find_source(how: Placement, w: u32, h: u32, x: u32, y: u32) -> (r: (u32, u32))
    requires
        x < placed_size(how, w as int, h as int).0,
        y < placed_size(how, w as int, h as int).1,
    ensures
        r.0 == source_of(how, w as int, h as int, x as int, y as int).0,
        r.1 == source_of(how, w as int, h as int, x as int, y as int).1,
        r.0 < w,
        r.1 < h,
{
    match how {
        Placement::Quarter => (y, h - 1 - x),
        Placement::Half => (w - 1 - x, h - 1 - y),
        Placement::ThreeQuarters => (w - 1 - y, x),
        Placement::Mirror => (w - 1 - x, y),
        Placement::Overturn => (x, h - 1 - y),
        Placement::Crop { x: left, y: top, .. } => (left + x, top + y),
    }
}

/// Moves the pixels of an image of `width` columns.
pub fn place<T: Copy>(rows: &Vec<Vec<T>>, width: u32, how: Placement) -> (r: Vec<Vec<T>>)
    requires
        rows@.len() <= u32::MAX,
        is_even(pixels_of(rows@), width as int),
    ensures
        pixels_of(r@) == placed(pixels_of(rows@), width as int, how),
{
    let ghost p = pixels_of(rows@);
    let h = rows.len() as u32;
    let (new_width, new_height) = new_size(how, width, h);
    let ghost want = placed(p, width as int, how);
    let mut out: Vec<Vec<T>> = Vec::new();
    let mut y: u32 = 0;
    while y < new_height
        invariant
            y <= new_height,
            h == rows@.len(),
            p == pixels_of(rows@),
            is_even(p, width as int),
            want == placed(p, width as int, how),
            new_width == placed_size(how, width as int, h as int).0,
            new_height == placed_size(how, width as int, h as int).1,
            pixels_of(out@) == want.take(y as int),
        decreases new_height - y,
    {
        let mut row: Vec<T> = Vec::new();
        let mut x: u32 = 0;
        while x < new_width
            invariant
                x <= new_width,
                y < new_height,
                h == rows@.len(),
                p == pixels_of(rows@),
                is_even(p, width as int),
                want == placed(p, width as int, how),
                new_width == placed_size(how, width as int, h as int).0,
                new_height == placed_size(how, width as int, h as int).1,
                row@ == want[y as int].take(x as int),
            decreases new_width - x,
        {
            let (from_x, from_y) = find_source(how, width, h, x, y);
            assert(p[from_y as int].len() == width);
            row.push(rows[from_y as usize][from_x as usize]);
            assert(row@ =~= want[y as int].take(x + 1));
            x = x + 1;
        }
        assert(row@ =~= want[y as int]);
        let ghost was = out@;
        out.push(row);
        assert(pixels_of(out@) =~= pixels_of(was).push(row@));
        assert(pixels_of(out@) =~= want.take(y + 1));
        y = y + 1;
    }
    assert(want.take(y as int) =~= want);
    out
}

/// The part of an image that is asked for.
pub open spec fn crop_of(opts: Json) -> Result<Placement, Seq<char>> {
    match required_u64(opts, "x"@) {
        Err(e) => Err(e),
        Ok(x) => match required_u64(opts, "y"@) {
            Err(e) => Err(e),
            Ok(y) => match required_u64(opts, "width"@) {
                Err(e) => Err(e),
                Ok(w) => match required_u64(opts, "height"@) {
                    Err(e) => Err(e),
                    Ok(h) => Ok(
                        Placement::Crop {
                            x: in_32_bits(x as int),
                            y: in_32_bits(y as int),
                            width: in_32_bits(w as int),
                            height: in_32_bits(h as int),
                        },
                    ),
                },
            },
        },
    }
}

/// The low half of a number.
fn low_half(n: u64) -> (r: u32)
    ensures
        r == in_32_bits(n as int),
{
    (n % 0x1_0000_0000) as u32
}

/// Which part of an image is asked for.
pub fn op_img_crop(opts: &Value) -> (r: Result<Placement, String>)
    ensures
        match r {
            Ok(p) => crop_of(opts.deep_view()) == Ok::<Placement, Seq<char>>(p),
            Err(e) => crop_of(opts.deep_view()) == Err::<Placement, Seq<char>>(e@),
        },
{
    match req_u64_img(opts, "x") {
        Err(e) => Err(e),
        Ok(x) => match req_u64_img(opts, "y") {
            Err(e) => Err(e),
            Ok(y) => match req_u64_img(opts, "width") {
                Err(e) => Err(e),
                Ok(w) => match req_u64_img(opts, "height") {
                    Err(e) => Err(e),
                    Ok(h) => Ok(
                        Placement::Crop {
                            x: low_half(x),
                            y: low_half(y),
                            width: low_half(w),
                            height: low_half(h),
                        },
                    ),
                },
            },
        },
    }
}

// ── laws ────────────────────────────────────────────────────────────────────

/// The movement that takes another one back; a crop has none.
pub open spec fn undoing(how: Placement) -> Placement {
    match how {
        Placement::Quarter => Placement::ThreeQuarters,
        Placement::ThreeQuarters => Placement::Quarter,
        other => other,
    }
}

/// Turns and flips can be taken back: a turn by the one that completes it, a flip by
/// itself.
pub proof fn moving_back_gives_back<T>(p: Pixels<T>, w: int, how: Placement)
    requires
        is_even(p, w),
        0 <= w,
        !(how is Crop),
    ensures
        is_even(placed(p, w, how), placed_size(how, w, p.len() as int).0),
        placed(placed(p, w, how), placed_size(how, w, p.len() as int).0, undoing(how)) == p,
{
    let h = p.len() as int;
    let q = placed(p, w, how);
    let size = placed_size(how, w, h);
    let back = placed(q, size.0, undoing(how));
    assert(q.len() == size.1);
    assert forall|y: int| 0 <= y < h implies back[y] == p[y] by {
        assert(p[y].len() == w);
        assert(back[y] =~= p[y]);
    }
    assert(back =~= p);
}

/// A half turn is two quarter turns.
pub proof fn quarters_make_halves<T>(p: Pixels<T>, w: int)
    requires
        is_even(p, w),
        0 <= w,
    ensures
        placed(placed(p, w, Placement::Quarter), p.len() as int, Placement::Quarter) == placed(
            p,
            w,
            Placement::Half,
        ),
{
    let h = p.len() as int;
    let q = placed(p, w, Placement::Quarter);
    let twice = placed(q, h, Placement::Quarter);
    let half = placed(p, w, Placement::Half);
    assert(q.len() == w);
    assert forall|y: int| 0 <= y < h implies twice[y] == half[y] by {
        assert(twice[y] =~= half[y]);
    }
    assert(twice =~= half);
}

/// A crop as large as the image, from its corner, leaves it as it is.
pub proof fn full_crops_change_nothing<T>(p: Pixels<T>, w: int, width: u32, height: u32)
    requires
        is_even(p, w),
        0 <= w <= width,
        p.len() <= height,
    ensures
        placed(p, w, Placement::Crop { x: 0, y: 0, width, height }) == p,
{
    let q = placed(p, w, Placement::Crop { x: 0, y: 0, width, height });
    assert forall|y: int| 0 <= y < p.len() implies q[y] == p[y] by {
        assert(p[y].len() == w);
        assert(q[y] =~= p[y]);
    }
    assert(q =~= p);
}

/// Each pixel goes where a turn to the right, a flip or a crop takes it: a quarter turn makes
/// the first row the last column, a half turn puts each pixel opposite, a mirror exchanges left
/// and right, and an overturn top and bottom; a crop takes what lies in it.
pub proof fn pixels_go_where_they_are_moved<T>(p: Pixels<T>, w: int, x: int, y: int, c: Placement)
    requires
        0 <= x < w,
        0 <= y < p.len(),
    ensures
        ({
            let h = p.len() as int;
            let quarter = placed(p, w, Placement::Quarter);
            let half = placed(p, w, Placement::Half);
            let three = placed(p, w, Placement::ThreeQuarters);
            let mirror = placed(p, w, Placement::Mirror);
            let over = placed(p, w, Placement::Overturn);
            &&& quarter.len() == w && quarter[x].len() == h && quarter[x][h - 1 - y] == p[y][x]
            &&& half.len() == h && half[h - 1 - y].len() == w && half[h - 1 - y][w - 1 - x]
                == p[y][x]
            &&& three.len() == w && three[w - 1 - x].len() == h && three[w - 1 - x][y] == p[y][x]
            &&& mirror.len() == h && mirror[y].len() == w && mirror[y][w - 1 - x] == p[y][x]
            &&& over.len() == h && over[h - 1 - y].len() == w && over[h - 1 - y][x] == p[y][x]
        }),
        c matches Placement::Crop { x: left, y: top, width, height } ==> ({
            let out = placed(p, w, c);
            let inside = left <= x < left + width && top <= y < top + height;
            &&& inside ==> y - top < out.len() && x - left < out[y - top].len() && out[y - top][x
                - left] == p[y][x]
            &&& out.len() <= height && top + out.len() <= (if top < p.len() {
                p.len() as int
            } else {
                top as int
            })
        }),
{
}

} // verus!
