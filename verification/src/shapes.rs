//! Shapes drawn into images, corners cut off, and areas filled.

use crate::color::Pixel;
use crate::raster::{build, near_pixel, picture, set_pixel, with_alpha, within, Image, Picture};
use vstd::prelude::*;

verus! {

// ── rounded rectangles ──────────────────────────────────────────────────────

pub open spec fn smaller(a: int, b: int) -> int {
    if a < b {
        a
    } else {
        b
    }
}

/// The radius of the corners: not negative, and at most half of each side.
pub open spec fn corner_radius(w: int, h: int, r: int) -> int {
    let m = smaller(smaller(r, w / 2), h / 2);
    if m < 0 {
        0
    } else {
        m
    }
}

/// The nearest center of a corner along one side.
pub open spec fn corner_center(p: int, from: int, len: int, r: int) -> int {
    if p < from + r {
        from + r
    } else if p > from + len - 1 - r {
        from + len - 1 - r
    } else {
        p
    }
}

/// Whether a point lies in a rectangle with round corners.
pub open spec fn in_round_rect(px: int, py: int, x: int, y: int, w: int, h: int, r: int) -> bool {
    if px < x || py < y || px >= x + w || py >= y + h {
        false
    } else {
        let c = corner_radius(w, h, r);
        let dx = px - corner_center(px, x, w, c);
        let dy = py - corner_center(py, y, h, c);
        dx * dx + dy * dy <= c * c
    }
}

fn inside(px: i128, py: i128, x: i128, y: i128, w: i128, h: i128, r: i128) -> (o: bool)
    requires
        -0x1_0000_0000_0000_0000 <= x <= 0x1_0000_0000_0000_0000,
        -0x1_0000_0000_0000_0000 <= y <= 0x1_0000_0000_0000_0000,
        -0x2_0000_0000_0000_0000 <= w <= 0x8000_0000_0000_0000,
        -0x2_0000_0000_0000_0000 <= h <= 0x8000_0000_0000_0000,
        -0x8000_0000_0000_0000 <= r <= 0x8000_0000_0000_0000,
        -0x8000_0000_0000_0000 <= px <= 0x8000_0000_0000_0000,
        -0x8000_0000_0000_0000 <= py <= 0x8000_0000_0000_0000,
    ensures
        o == in_round_rect(
            px as int,
            py as int,
            x as int,
            y as int,
            w as int,
            h as int,
            r as int,
        ),
{
    if px < x || py < y || px >= x + w || py >= y + h {
        return false;
    }
    let mut c: i128 = r;
    if w / 2 < c {
        c = w / 2;
    }
    if h / 2 < c {
        c = h / 2;
    }
    if c < 0 {
        c = 0;
    }
    assert(c == corner_radius(w as int, h as int, r as int));
    let cx: i128 = if px < x + c {
        x + c
    } else if px > x + w - 1 - c {
        x + w - 1 - c
    } else {
        px
    };
    let cy: i128 = if py < y + c {
        y + c
    } else if py > y + h - 1 - c {
        y + h - 1 - c
    } else {
        py
    };
    let dx: i128 = px - cx;
    let dy: i128 = py - cy;
    assert(-c <= dx <= c);
    assert(-c <= dy <= c);
    assert(0 <= c <= 0x4000_0000_0000_0000);
    assert(0 <= dx * dx <= c * c) by (nonlinear_arith)
        requires
            -c <= dx <= c,
    ;
    assert(0 <= dy * dy <= c * c) by (nonlinear_arith)
        requires
            -c <= dy <= c,
    ;
    assert(c * c <= 0x1000_0000_0000_0000_0000_0000_0000_0000) by (nonlinear_arith)
        requires
            0 <= c <= 0x4000_0000_0000_0000,
    ;
    dx * dx + dy * dy <= c * c
}

/// Whether a point lies in a rectangle with round corners.
pub fn in_rrect(px: i64, py: i64, x: i64, y: i64, w: i64, h: i64, r: i64) -> (o: bool)
    ensures
        o == in_round_rect(
            px as int,
            py as int,
            x as int,
            y as int,
            w as int,
            h as int,
            r as int,
        ),
{
    inside(px as i128, py as i128, x as i128, y as i128, w as i128, h as i128, r as i128)
}

/// A rectangle with round corners: where it begins, how large it is and how round; and
/// how thick its line is where it is not filled.
pub struct RoundRect {
    pub x: i64,
    pub y: i64,
    pub w: i64,
    pub h: i64,
    pub r: i64,
    pub fill: bool,
    pub stroke: i64,
}

/// The thickness of a line, at least 1.
pub open spec fn thickness(s: RoundRect) -> int {
    if s.stroke < 1 {
        1
    } else {
        s.stroke as int
    }
}

pub open spec fn not_negative(v: int) -> int {
    if v < 0 {
        0
    } else {
        v
    }
}

/// Whether a point is drawn: it lies in the rectangle and, for a line, not in the smaller
/// one inside it.
pub open spec fn is_drawn(s: RoundRect, px: int, py: int) -> bool {
    in_round_rect(px, py, s.x as int, s.y as int, s.w as int, s.h as int, s.r as int) && (s.fill
        || !in_round_rect(
        px,
        py,
        s.x + thickness(s),
        s.y + thickness(s),
        s.w - 2 * thickness(s),
        s.h - 2 * thickness(s),
        not_negative(s.r - thickness(s)),
    ))
}

fn draws(s: &RoundRect, px: i64, py: i64) -> (o: bool)
    ensures
        o == is_drawn(*s, px as int, py as int),
{
    let (x, y, w, h, r) = (s.x as i128, s.y as i128, s.w as i128, s.h as i128, s.r as i128);
    let t: i128 = if s.stroke < 1 {
        1
    } else {
        s.stroke as i128
    };
    if !inside(px as i128, py as i128, x, y, w, h, r) {
        return false;
    }
    if s.fill {
        return true;
    }
    let ir: i128 = if r - t < 0 {
        0
    } else {
        r - t
    };
    !inside(px as i128, py as i128, x + t, y + t, w - 2 * t, h - 2 * t, ir)
}

/// A picture with a shape drawn into it.
pub open spec fn with_shape(p: Picture, w: nat, s: RoundRect, c: Pixel) -> Picture {
    picture(
        w,
        p.len(),
        |x: int, y: int|
            if is_drawn(s, x, y) {
                c
            } else {
                p[y][x]
            },
    )
}

/// Draws a rectangle with round corners.
pub fn op_img_draw_rounded_rect(img: &Image, s: &RoundRect, c: Pixel) -> (r: Image)
    requires
        img.wf(),
    ensures
        r.wf(),
        r.width == img.width,
        r@ == with_shape(img@, img.width as nat, *s, c),
{
    let h = img.height();
    let f = |x: usize, y: usize| -> (p: Pixel)
        requires
            img.wf(),
            x < img.width,
            y < img.rows@.len(),
        ensures
            p == (if is_drawn(*s, x as int, y as int) {
                c
            } else {
                img.rows@[y as int]@[x as int]
            }),
        {
            assert(img.rows@[y as int]@.len() == img.width);
            if draws(s, x as i64, y as i64) {
                c
            } else {
                img.rows[y][x]
            }
        };
    let ghost g = |x: int, y: int|
        if is_drawn(*s, x, y) {
            c
        } else {
            img@[y][x]
        };
    let o = build(img.width, h, &f, Ghost(g));
    assert(o@ =~= with_shape(img@, img.width as nat, *s, c)) by {
        let want = with_shape(img@, img.width as nat, *s, c);
        assert forall|y: int| 0 <= y < o@.len() implies o@[y] == want[y] by {
            assert(o@[y] =~= want[y]);
        }
    }
    o
}

/// A picture with its corners cut off: what lies outside is transparent.
pub open spec fn with_round_corners(p: Picture, w: nat, r: int) -> Picture {
    picture(
        w,
        p.len(),
        |x: int, y: int|
            if in_round_rect(x, y, 0, 0, w as int, p.len() as int, r) {
                p[y][x]
            } else {
                with_alpha(p[y][x], 0)
            },
    )
}

/// Makes the corners of an image round.
pub fn op_img_round_corners(img: &Image, r: i64) -> (o: Image)
    requires
        img.wf(),
    ensures
        o.wf(),
        o.width == img.width,
        o@ == with_round_corners(img@, img.width as nat, r as int),
{
    let h = img.height();
    let w = img.width;
    let f = |x: usize, y: usize| -> (p: Pixel)
        requires
            img.wf(),
            w == img.width,
            h == img.rows@.len(),
            x < img.width,
            y < img.rows@.len(),
        ensures
            p == (if in_round_rect(x as int, y as int, 0, 0, w as int, h as int, r as int) {
                img.rows@[y as int]@[x as int]
            } else {
                with_alpha(img.rows@[y as int]@[x as int], 0)
            }),
        {
            assert(img.rows@[y as int]@.len() == img.width);
            let q = img.rows[y][x];
            if in_rrect(x as i64, y as i64, 0, 0, w as i64, h as i64, r) {
                q
            } else {
                Pixel { r: q.r, g: q.g, b: q.b, a: 0 }
            }
        };
    let ghost g = |x: int, y: int|
        if in_round_rect(x, y, 0, 0, w as int, h as int, r as int) {
            img@[y][x]
        } else {
            with_alpha(img@[y][x], 0)
        };
    let o = build(img.width, h, &f, Ghost(g));
    assert(o@ =~= with_round_corners(img@, img.width as nat, r as int)) by {
        let want = with_round_corners(img@, img.width as nat, r as int);
        assert forall|y: int| 0 <= y < o@.len() implies o@[y] == want[y] by {
            assert(o@[y] =~= want[y]);
        }
    }
    o
}

/// Whether the middle of a pixel lies outside the circle that the sides of an image
/// touch. All lengths are doubled, so that they are whole numbers.
pub open spec fn outside_circle(x: int, y: int, w: int, h: int) -> bool {
    let d = smaller(w, h);
    (2 * x + 1 - w) * (2 * x + 1 - w) + (2 * y + 1 - h) * (2 * y + 1 - h) > d * d
}

fn is_outside(x: u32, y: u32, w: u32, h: u32) -> (r: bool)
    requires
        x < w,
        y < h,
    ensures
        r == outside_circle(x as int, y as int, w as int, h as int),
{
    let dx: i128 = 2 * (x as i128) + 1 - w as i128;
    let dy: i128 = 2 * (y as i128) + 1 - h as i128;
    let d: i128 = if w < h {
        w as i128
    } else {
        h as i128
    };
    assert(0 <= dx * dx <= 0x4_0000_0000_0000_0000) by (nonlinear_arith)
        requires
            -0x1_0000_0000 <= dx <= 0x1_0000_0000,
    ;
    assert(0 <= dy * dy <= 0x4_0000_0000_0000_0000) by (nonlinear_arith)
        requires
            -0x1_0000_0000 <= dy <= 0x1_0000_0000,
    ;
    assert(0 <= d * d <= 0x4_0000_0000_0000_0000) by (nonlinear_arith)
        requires
            0 <= d <= 0x1_0000_0000,
    ;
    dx * dx + dy * dy > d * d
}

/// A picture cut to a circle: what lies outside is transparent.
pub open spec fn in_circle(p: Picture, w: nat) -> Picture {
    picture(
        w,
        p.len(),
        |x: int, y: int|
            if outside_circle(x, y, w as int, p.len() as int) {
                with_alpha(p[y][x], 0)
            } else {
                p[y][x]
            },
    )
}

/// Cuts an image to a circle.
pub fn op_img_crop_circle(img: &Image) -> (o: Image)
    requires
        img.wf(),
    ensures
        o.wf(),
        o.width == img.width,
        o@ == in_circle(img@, img.width as nat),
{
    let h = img.height();
    let w = img.width;
    let f = |x: usize, y: usize| -> (p: Pixel)
        requires
            img.wf(),
            w == img.width,
            h == img.rows@.len(),
            x < img.width,
            y < img.rows@.len(),
        ensures
            p == (if outside_circle(x as int, y as int, w as int, h as int) {
                with_alpha(img.rows@[y as int]@[x as int], 0)
            } else {
                img.rows@[y as int]@[x as int]
            }),
        {
            assert(img.rows@[y as int]@.len() == img.width);
            let q = img.rows[y][x];
            if is_outside(x as u32, y as u32, w, h) {
                Pixel { r: q.r, g: q.g, b: q.b, a: 0 }
            } else {
                q
            }
        };
    let ghost g = |x: int, y: int|
        if outside_circle(x, y, w as int, h as int) {
            with_alpha(img@[y][x], 0)
        } else {
            img@[y][x]
        };
    let o = build(img.width, h, &f, Ghost(g));
    assert(o@ =~= in_circle(img@, img.width as nat)) by {
        let want = in_circle(img@, img.width as nat);
        assert forall|y: int| 0 <= y < o@.len() implies o@[y] == want[y] by {
            assert(o@[y] =~= want[y]);
        }
    }
    o
}

// ── filling ─────────────────────────────────────────────────────────────────

/// A point of an image.
pub type Point = (int, int);

/// Whether two points are beside each other.
pub open spec fn are_beside(a: Point, b: Point) -> bool {
    (a.0 == b.0 && (a.1 == b.1 + 1 || b.1 == a.1 + 1)) || (a.1 == b.1 && (a.0 == b.0 + 1 || b.0
        == a.0 + 1))
}

/// Whether a point lies in the picture and its pixel is like the target.
pub open spec fn is_like(p: Picture, w: int, target: Pixel, tol: i64, a: Point) -> bool {
    0 <= a.0 < w && 0 <= a.1 < p.len() && near_pixel(p[a.1][a.0], target, tol)
}

/// Whether points lead step by step from the first to the last, each like the target.
pub open spec fn is_path(p: Picture, w: int, target: Pixel, tol: i64, path: Seq<Point>) -> bool {
    &&& path.len() > 0
    &&& forall|i: int| 0 <= i < path.len() ==> #[trigger] is_like(p, w, target, tol, path[i])
    &&& forall|i: int|
        0 <= i < path.len() - 1 ==> #[trigger] are_beside(path[i], path[i + 1])
}

/// Whether a point can be reached from the seed.
pub open spec fn is_reached(
    p: Picture,
    w: int,
    target: Pixel,
    tol: i64,
    seed: Point,
    a: Point,
) -> bool {
    exists|path: Seq<Point>| #[trigger]
        is_path(p, w, target, tol, path) && path[0] == seed && path.last() == a
}

/// A picture with all points filled that can be reached from the seed through pixels like
/// the one there.
pub open spec fn flooded(p: Picture, w: nat, seed: Point, c: Pixel, tol: i64) -> Picture {
    if 0 <= seed.0 < w && 0 <= seed.1 < p.len() {
        let target = p[seed.1][seed.0];
        picture(
            w,
            p.len(),
            |x: int, y: int|
                if is_reached(p, w as int, target, tol, seed, (x, y)) {
                    c
                } else {
                    p[y][x]
                },
        )
    } else {
        p
    }
}

/// What is known while filling: `cur` has `done` filled and nothing else changed, every
/// point of `done` can be reached, and what is beside one and like the target is in
/// `done` or among the points that wait.
spec fn filling(
    p: Picture,
    cur: Picture,
    w: int,
    target: Pixel,
    tol: i64,
    c: Pixel,
    seed: Point,
    done: Set<Point>,
    wait: Seq<(i64, i64)>,
) -> bool {
    &&& cur.len() == p.len()
    &&& forall|x: int, y: int|
        #![trigger cur[y][x]]
        0 <= x < w && 0 <= y < p.len() ==> cur[y][x] == if done.contains((x, y)) {
            c
        } else {
            p[y][x]
        }
    &&& forall|a: Point| #[trigger]
        done.contains(a) ==> is_like(p, w, target, tol, a) && is_reached(
            p,
            w,
            target,
            tol,
            seed,
            a,
        )
    &&& forall|i: int|
        0 <= i < wait.len() ==> may_come(p, w, target, tol, seed, point(#[trigger] wait[i]))
    &&& forall|a: Point, b: Point| #[trigger]
        done.contains(a) && #[trigger] is_like(p, w, target, tol, b) && are_beside(a, b)
            ==> done.contains(b) || waits(wait, b)
    &&& is_like(p, w, target, tol, seed) ==> done.contains(seed) || waits(wait, seed)
}

spec fn point(a: (i64, i64)) -> Point {
    (a.0 as int, a.1 as int)
}

spec fn waits(wait: Seq<(i64, i64)>, b: Point) -> bool {
    exists|i: int| 0 <= i < wait.len() && point(#[trigger] wait[i]) == b
}

/// Whether a point, if it is like the target, can be reached.
spec fn may_come(p: Picture, w: int, target: Pixel, tol: i64, seed: Point, a: Point) -> bool {
    is_like(p, w, target, tol, a) ==> is_reached(p, w, target, tol, seed, a)
}

proof fn lemma_one_step(
    p: Picture,
    w: int,
    target: Pixel,
    tol: i64,
    seed: Point,
    a: Point,
    b: Point,
)
    requires
        is_reached(p, w, target, tol, seed, a),
        are_beside(a, b),
        is_like(p, w, target, tol, b),
    ensures
        is_reached(p, w, target, tol, seed, b),
{
    let path = choose|path: Seq<Point>| #[trigger]
        is_path(p, w, target, tol, path) && path[0] == seed && path.last() == a;
    let longer = path.push(b);
    assert forall|i: int| 0 <= i < longer.len() implies #[trigger] is_like(
        p,
        w,
        target,
        tol,
        longer[i],
    ) by {
        if i < path.len() {
            assert(longer[i] == path[i]);
            assert(is_like(p, w, target, tol, path[i]));
        }
    }
    assert forall|i: int| 0 <= i < longer.len() - 1 implies #[trigger] are_beside(
        longer[i],
        longer[i + 1],
    ) by {
        if i < path.len() - 1 {
            assert(longer[i] == path[i] && longer[i + 1] == path[i + 1]);
            assert(are_beside(path[i], path[i + 1]));
        } else {
            assert(longer[i] == a && longer[i + 1] == b);
        }
    }
    assert(is_path(p, w, target, tol, longer));
    assert(longer[0] == seed && longer.last() == b);
}

proof fn lemma_path_done(
    p: Picture,
    cur: Picture,
    w: int,
    target: Pixel,
    tol: i64,
    c: Pixel,
    seed: Point,
    done: Set<Point>,
    path: Seq<Point>,
    n: nat,
)
    requires
        filling(p, cur, w, target, tol, c, seed, done, Seq::empty()),
        is_path(p, w, target, tol, path),
        path[0] == seed,
        n < path.len(),
    ensures
        done.contains(path[n as int]),
    decreases n,
{
    assert(!waits(Seq::empty(), seed));
    assert(is_like(p, w, target, tol, path[0]));
    if n > 0 {
        lemma_path_done(p, cur, w, target, tol, c, seed, done, path, (n - 1) as nat);
        let a = path[n - 1];
        let b = path[n as int];
        assert(are_beside(path[n - 1], path[n - 1 + 1]));
        assert(is_like(p, w, target, tol, path[n as int]));
        assert(done.contains(a) && is_like(p, w, target, tol, b) && are_beside(a, b));
        assert(!waits(Seq::empty(), b));
    }
}

proof fn lemma_box_finite(w: nat, h: nat)
    ensures
        in_box(w, h).finite(),
        in_box(w, h).len() == w * h,
    decreases h,
{
    if h == 0 {
        assert(in_box(w, 0) =~= Set::<Point>::empty());
        assert(w * 0 == 0) by (nonlinear_arith);
    } else {
        lemma_box_finite(w, (h - 1) as nat);
        lemma_row_finite(w, (h - 1) as int);
        let a = in_box(w, (h - 1) as nat);
        let b = box_row(w, (h - 1) as int);
        assert(in_box(w, h) =~= a.union(b));
        assert(a.disjoint(b));
        vstd::set_lib::lemma_set_disjoint_lens(a, b);
        assert(w * h == w * (h - 1) + w) by (nonlinear_arith)
            requires
                h > 0,
        ;
    }
}

spec fn in_box(w: nat, h: nat) -> Set<Point> {
    Set::new(|a: Point| 0 <= a.0 < w && 0 <= a.1 < h)
}

spec fn box_row(w: nat, y: int) -> Set<Point> {
    Set::new(|a: Point| 0 <= a.0 < w && a.1 == y)
}

proof fn lemma_row_finite(w: nat, y: int)
    ensures
        box_row(w, y).finite(),
        box_row(w, y).len() == w,
    decreases w,
{
    if w == 0 {
        assert(box_row(0, y) =~= Set::<Point>::empty());
    } else {
        lemma_row_finite((w - 1) as nat, y);
        assert(box_row(w, y) =~= box_row((w - 1) as nat, y).insert(((w - 1) as int, y)));
    }
}

fn push_point(wait: &mut Vec<(i64, i64)>, x: i64, y: i64)
    ensures
        final(wait)@ == old(wait)@.push((x, y)),
{
    wait.push((x, y));
}

/// Whether marks stand at the points of a set, and nowhere else among `w` times `h`.
spec fn marks(seen: Seq<Vec<bool>>, w: int, h: int, done: Set<Point>) -> bool {
    &&& seen.len() == h
    &&& forall|y: int| 0 <= y < h ==> (#[trigger] seen[y])@.len() == w
    &&& forall|x: int, y: int|
        #![trigger seen[y]@[x]]
        0 <= x < w && 0 <= y < h ==> seen[y]@[x] == done.contains((x, y))
}

fn no_marks(w: u32, h: usize) -> (r: Vec<Vec<bool>>)
    ensures
        marks(r@, w as int, h as int, Set::empty()),
{
    let mut out: Vec<Vec<bool>> = Vec::new();
    let mut y: usize = 0;
    while y < h
        invariant
            y <= h,
            marks(out@, w as int, y as int, Set::empty()),
        decreases h - y,
    {
        let mut row: Vec<bool> = Vec::new();
        let mut x: u32 = 0;
        while x < w
            invariant
                x <= w,
                row@.len() == x,
                forall|k: int| 0 <= k < x ==> !(#[trigger] row@[k]),
            decreases w - x,
        {
            row.push(false);
            x = x + 1;
        }
        out.push(row);
        y = y + 1;
    }
    out
}

fn mark(seen: &mut Vec<Vec<bool>>, x: usize, y: usize, w: Ghost<int>, done: Ghost<Set<Point>>)
    requires
        marks(old(seen)@, w@, old(seen)@.len() as int, done@),
        y < old(seen)@.len(),
        x < w@,
    ensures
        marks(
            final(seen)@,
            w@,
            old(seen)@.len() as int,
            done@.insert((x as int, y as int)),
        ),
{
    let ghost was = seen@;
    let ghost here: Point = (x as int, y as int);
    assert(was[y as int]@.len() == w@);
    seen[y][x] = true;
    assert forall|k: int| 0 <= k < was.len() implies (#[trigger] seen@[k])@.len() == w@ by {
        assert(was[k]@.len() == w@);
    }
    assert forall|xx: int, yy: int|
        #![trigger seen@[yy]@[xx]]
        0 <= xx < w@ && 0 <= yy < was.len() implies seen@[yy]@[xx] == done@.insert(here).contains(
        (xx, yy),
    ) by {
        assert(was[yy]@[xx] == done@.contains((xx, yy)));
    }
}

/// Fills the area round a seed; a color that is the pixel there changes nothing.
pub fn op_img_flood_fill(img: &Image, sx: u32, sy: u32, c: Pixel, tol: i64) -> (r: Image)
    requires
        img.wf(),
    ensures
        r.wf(),
        r.width == img.width,
        if sx < img.width && sy < img@.len() && c == img@[sy as int][sx as int] {
            r@ == img@
        } else {
            r@ == flooded(img@, img.width as nat, (sx as int, sy as int), c, tol)
        },
{
    let ghost p = img@;
    let ghost w = img.width as int;
    let ghost seed: Point = (sx as int, sy as int);
    let mut cur = crate::raster::copy_image(img);
    if sx >= img.width || sy as usize >= img.rows.len() {
        return cur;
    }
    assert(img.rows@[sy as int]@.len() == img.width);
    let target = img.rows[sy as usize][sx as usize];
    if c == target {
        return cur;
    }
    let mut wait: Vec<(i64, i64)> = Vec::new();
    wait.push((sx as i64, sy as i64));
    let mut seen = no_marks(img.width, img.rows.len());
    let ghost mut done: Set<Point> = Set::empty();
    let ghost area = in_box(img.width as nat, p.len());
    proof {
        lemma_box_finite(img.width as nat, p.len());
        assert(point(wait@[0]) == seed);
        assert(waits(wait@, seed));
        assert forall|i: int| 0 <= i < wait@.len() implies may_come(
            p,
            w,
            target,
            tol,
            seed,
            point(#[trigger] wait@[i]),
        ) by {
            if is_like(p, w, target, tol, seed) {
                let path = seq![seed];
                assert(is_like(p, w, target, tol, path[0]));
                assert(is_path(p, w, target, tol, path));
                assert(path[0] == seed && path.last() == seed);
            }
        }
        assert(done.len() == 0);
    }
    while wait.len() > 0
        invariant
            img.wf(),
            p == img@,
            w == img.width,
            cur.wf(),
            cur.width == img.width,
            cur@.len() == p.len(),
            target == p[sy as int][sx as int],
            marks(seen@, w, p.len() as int, done),
            seed == (sx as int, sy as int),
            area == in_box(img.width as nat, p.len()),
            area.finite(),
            done.finite(),
            done.subset_of(area),
            filling(p, cur@, w, target, tol, c, seed, done, wait@),
        decreases area.len() - done.len(), wait@.len(),
    {
        let ghost was = wait@;
        let k: usize = wait.len() - 1;
        let (x, y) = wait[k];
        wait.pop();
        assert(wait@ =~= was.take(k as int));
        let ghost here: Point = (x as int, y as int);
        assert(point(was[k as int]) == here);
        let ghost old_cur = cur@;
        let inside = x >= 0 && y >= 0 && x < cur.width as i64 && y < cur.rows.len() as i64;
        let mut like = false;
        if inside {
            assert(img.rows@[y as int]@.len() == img.width);
            assert(seen@[y as int]@.len() == w);
            like = !seen[y as usize][x as usize] && crate::raster::is_near_pixel(
                img.rows[y as usize][x as usize],
                target,
                tol,
            );
            assert(seen@[y as int]@[x as int] == done.contains(here));
            assert(p[y as int][x as int] == img.rows@[y as int]@[x as int]);
        }
        if !like {
            proof {
                // a point that is passed over is filled or is not like the target
                assert(!is_like(p, w, target, tol, here) || done.contains(here));
                assert forall|b: Point| waits(was, b) implies b == here || waits(wait@, b) by {
                    let i = choose|i: int| 0 <= i < was.len() && point(#[trigger] was[i]) == b;
                    if i < k {
                        assert(point(wait@[i]) == b);
                    }
                }
                assert forall|a: Point, b: Point| #[trigger]
                    done.contains(a) && #[trigger] is_like(p, w, target, tol, b) && are_beside(
                        a,
                        b,
                    ) implies done.contains(b) || waits(wait@, b) by {
                    if !done.contains(b) {
                        assert(waits(was, b));
                    }
                }
                assert forall|i: int| 0 <= i < wait@.len() implies may_come(
                    p,
                    w,
                    target,
                    tol,
                    seed,
                    point(#[trigger] wait@[i]),
                ) by {
                    assert(wait@[i] == was[i]);
                }
                if is_like(p, w, target, tol, seed) && !done.contains(seed) {
                    assert(waits(was, seed));
                }
            }
        } else {
            proof {
                assert(is_like(p, w, target, tol, here));
                assert(may_come(p, w, target, tol, seed, point(was[k as int])));
            }
            set_pixel(&mut cur, x as usize, y as usize, c);
            mark(&mut seen, x as usize, y as usize, Ghost(w), Ghost(done));
            push_point(&mut wait, x + 1, y);
            push_point(&mut wait, x - 1, y);
            push_point(&mut wait, x, y + 1);
            push_point(&mut wait, x, y - 1);
            let ghost new_done = done.insert(here);
            proof {
                let n = k as int;
                assert(point(wait@[n]) == (x + 1, y as int));
                assert(point(wait@[n + 1]) == (x - 1, y as int));
                assert(point(wait@[n + 2]) == (x as int, y + 1));
                assert(point(wait@[n + 3]) == (x as int, y - 1));
                assert forall|i: int| 0 <= i < wait@.len() implies may_come(
                    p,
                    w,
                    target,
                    tol,
                    seed,
                    point(#[trigger] wait@[i]),
                ) by {
                    if i < n {
                        assert(wait@[i] == was[i]);
                    } else {
                        let b = point(wait@[i]);
                        assert(are_beside(here, b));
                        if is_like(p, w, target, tol, b) {
                            lemma_one_step(p, w, target, tol, seed, here, b);
                        }
                    }
                }
                assert forall|b: Point| waits(was, b) implies b == here || waits(wait@, b) by {
                    let i = choose|i: int| 0 <= i < was.len() && point(#[trigger] was[i]) == b;
                    if i < n {
                        assert(wait@[i] == was[i]);
                        assert(point(wait@[i]) == b);
                    }
                }
                assert forall|a: Point, b: Point| #[trigger]
                    new_done.contains(a) && #[trigger] is_like(p, w, target, tol, b) && are_beside(
                        a,
                        b,
                    ) implies new_done.contains(b) || waits(wait@, b) by {
                    if a == here {
                        if b == (x + 1, y as int) {
                            assert(point(wait@[n]) == b);
                        } else if b == (x - 1, y as int) {
                            assert(point(wait@[n + 1]) == b);
                        } else if b == (x as int, y + 1) {
                            assert(point(wait@[n + 2]) == b);
                        } else {
                            assert(b == (x as int, y - 1));
                            assert(point(wait@[n + 3]) == b);
                        }
                    } else {
                        assert(done.contains(a));
                        if !new_done.contains(b) {
                            assert(!done.contains(b));
                            assert(waits(was, b));
                        }
                    }
                }
                assert forall|xx: int, yy: int|
                    #![trigger cur@[yy][xx]]
                    0 <= xx < w && 0 <= yy < p.len() implies cur@[yy][xx] == (if new_done.contains(
                    (xx, yy),
                ) {
                    c
                } else {
                    p[yy][xx]
                }) by {
                    assert(old_cur[yy].len() == w);
                    assert(old_cur[yy][xx] == if done.contains((xx, yy)) {
                        c
                    } else {
                        p[yy][xx]
                    });
                }
                assert forall|a: Point| #[trigger] new_done.contains(a) implies is_like(
                    p,
                    w,
                    target,
                    tol,
                    a,
                ) && is_reached(p, w, target, tol, seed, a) by {
                    if a != here {
                        assert(done.contains(a));
                    }
                }
                assert(is_like(p, w, target, tol, seed) ==> new_done.contains(seed) || waits(
                    wait@,
                    seed,
                )) by {
                    if is_like(p, w, target, tol, seed) && !done.contains(seed) {
                        assert(waits(was, seed));
                    }
                }
                assert(area.contains(here));
                assert(!done.contains(here));
                vstd::set_lib::lemma_len_subset(new_done, area);
                done = new_done;
            }
        }
        assert(filling(p, cur@, w, target, tol, c, seed, done, wait@));
    }
    proof {
        let want = flooded(p, img.width as nat, seed, c, tol);
        assert(wait@ =~= Seq::<(i64, i64)>::empty());
        assert forall|y: int| 0 <= y < want.len() implies cur@[y] == want[y] by {
            assert(cur.rows@[y]@.len() == cur.width);
            assert forall|x: int| 0 <= x < w implies cur@[y][x] == want[y][x] by {
                if is_reached(p, w, target, tol, seed, (x, y)) {
                    let path = choose|path: Seq<Point>| #[trigger]
                        is_path(p, w, target, tol, path) && path[0] == seed && path.last() == (
                        x,
                        y,
                    );
                    lemma_path_done(
                        p,
                        cur@,
                        w,
                        target,
                        tol,
                        c,
                        seed,
                        done,
                        path,
                        (path.len() - 1) as nat,
                    );
                    assert(done.contains((x, y)));
                }
            }
            assert(cur@[y] =~= want[y]);
        }
        assert(cur@ =~= want);
    }
    cur
}

// ── what is drawn of a shape ────────────────────────────────────────────────

/// A rectangle with round corners has each point of its middle rows and columns, none outside
/// it, and of a corner those within the radius of the corner's center; it is the same from the
/// left and from the right, and from above and from below.
pub proof fn corners_are_round(px: int, py: int, x: int, y: int, w: int, h: int, r: int)
    ensures
        ({
            let c: int = if r <= 0 || w < 2 || h < 2 {
                0
            } else if r <= w / 2 && r <= h / 2 {
                r
            } else if w / 2 <= h / 2 {
                w / 2
            } else {
                h / 2
            };
            let inside = x <= px < x + w && y <= py < y + h;
            let here = in_round_rect(px, py, x, y, w, h, r);
            &&& !inside ==> !here
            &&& inside && (x + c <= px <= x + w - 1 - c || y + c <= py <= y + h - 1 - c) ==> here
            &&& inside && px < x + c && py < y + c ==> (here <==> (x + c - px) * (x + c - px) + (y
                + c - py) * (y + c - py) <= c * c)
            &&& here == in_round_rect(2 * x + w - 1 - px, py, x, y, w, h, r)
            &&& here == in_round_rect(px, 2 * y + h - 1 - py, x, y, w, h, r)
        }),
{
    let c = corner_radius(w, h, r);
    let inside = x <= px < x + w && y <= py < y + h;
    if inside {
        let dx = px - corner_center(px, x, w, c);
        let dy = py - corner_center(py, y, h, c);
        let qx = 2 * x + w - 1 - px;
        let qy = 2 * y + h - 1 - py;
        let ex = qx - corner_center(qx, x, w, c);
        let ey = qy - corner_center(qy, y, h, c);
        assert(ex == -dx);
        assert(ey == -dy);
        assert(ex * ex == dx * dx) by (nonlinear_arith)
            requires
                ex == -dx,
        ;
        assert(ey * ey == dy * dy) by (nonlinear_arith)
            requires
                ey == -dy,
        ;
        assert(-c <= dx <= c && -c <= dy <= c);
        assert(dx * dx <= c * c) by (nonlinear_arith)
            requires
                -c <= dx <= c,
        ;
        assert(dy * dy <= c * c) by (nonlinear_arith)
            requires
                -c <= dy <= c,
        ;
        if x + c <= px <= x + w - 1 - c {
            assert(dx == 0);
            assert(dx * dx == 0) by (nonlinear_arith)
                requires
                    dx == 0,
            ;
        }
        if y + c <= py <= y + h - 1 - c {
            assert(dy == 0);
            assert(dy * dy == 0) by (nonlinear_arith)
                requires
                    dy == 0,
            ;
        }
        assert(in_round_rect(px, py, x, y, w, h, r) == (dx * dx + dy * dy <= c * c));
        assert(in_round_rect(qx, py, x, y, w, h, r) == (ex * ex + dy * dy <= c * c));
        assert(in_round_rect(px, qy, x, y, w, h, r) == (dx * dx + ey * ey <= c * c));
        let fx = x + c - px;
        let fy = y + c - py;
        if px < x + c && py < y + c {
            assert(dx == -fx && dy == -fy);
            assert(dx * dx == fx * fx) by (nonlinear_arith)
                requires
                    dx == -fx,
            ;
            assert(dy * dy == fy * fy) by (nonlinear_arith)
                requires
                    dy == -fy,
            ;
        }
    }
}

/// A shape changes just the points that are drawn of it: those of the rectangle, and of a line
/// without those of the rectangle inside that is smaller by the thickness on each side.
pub proof fn shapes_change_what_is_drawn(
    p: Picture,
    w: nat,
    s: RoundRect,
    c: Pixel,
    x: int,
    y: int,
)
    requires
        0 <= x < w,
        0 <= y < p.len(),
    ensures
        ({
            let out = with_shape(p, w, s, c);
            let t: int = if s.stroke >= 1 {
                s.stroke as int
            } else {
                1
            };
            let inner: int = if s.r >= t {
                s.r - t
            } else {
                0
            };
            let whole = in_round_rect(x, y, s.x as int, s.y as int, s.w as int, s.h as int, s.r as int);
            let hole = in_round_rect(x, y, s.x + t, s.y + t, s.w - 2 * t, s.h - 2 * t, inner);
            &&& out.len() == p.len() && out[y].len() == w
            &&& whole && (s.fill || !hole) ==> out[y][x] == c
            &&& !(whole && (s.fill || !hole)) ==> out[y][x] == p[y][x]
        }),
{
}

/// Cutting corners off, or all but a circle, makes just the pixels outside clear and leaves
/// their colors; the circle has the middle of the picture for its own and touches its nearer
/// sides.
pub proof fn cutting_clears_what_is_outside(p: Picture, w: nat, r: int, x: int, y: int)
    requires
        0 <= x < w,
        0 <= y < p.len(),
    ensures
        ({
            let h = p.len() as int;
            let round = with_round_corners(p, w, r);
            let disc = in_circle(p, w);
            let o = p[y][x];
            let clear = Pixel { r: o.r, g: o.g, b: o.b, a: 0 };
            let d: int = if w <= h {
                w as int
            } else {
                h
            };
            let (ax, ay) = (2 * x + 1 - w, 2 * y + 1 - h);
            &&& round.len() == h && round[y].len() == w && disc.len() == h && disc[y].len() == w
            &&& round[y][x] == if in_round_rect(x, y, 0, 0, w as int, h, r) {
                o
            } else {
                clear
            }
            &&& disc[y][x] == if ax * ax + ay * ay <= d * d {
                o
            } else {
                clear
            }
        }),
{
}

/// A flood fill colors the point where it starts and, from each point that it colors, the ones
/// beside it that are like the first; points that are not like it stay.
pub proof fn floods_spread_over_what_is_alike(
    p: Picture,
    w: nat,
    seed: Point,
    c: Pixel,
    tol: i64,
    a: Point,
    b: Point,
)
    requires
        0 <= seed.0 < w && 0 <= seed.1 < p.len(),
        0 <= a.0 < w && 0 <= a.1 < p.len(),
        0 <= b.0 < w && 0 <= b.1 < p.len(),
        tol >= 0,
    ensures
        ({
            let out = flooded(p, w, seed, c, tol);
            let t = p[seed.1][seed.0];
            let (oa, ob) = (p[a.1][a.0], p[b.1][b.0]);
            let alike = |o: Pixel|
                within(o.r, t.r, tol) && within(o.g, t.g, tol) && within(o.b, t.b, tol) && within(
                    o.a,
                    t.a,
                    tol,
                );
            let beside = (a.0 - b.0 == 0 && (a.1 - b.1 == 1 || b.1 - a.1 == 1)) || (a.1 - b.1 == 0
                && (a.0 - b.0 == 1 || b.0 - a.0 == 1));
            &&& out.len() == p.len() && out[a.1].len() == w
            &&& out[seed.1][seed.0] == c
            &&& !alike(oa) ==> out[a.1][a.0] == oa
            &&& out[a.1][a.0] != oa && beside && alike(ob) ==> out[b.1][b.0] == c
            &&& out[a.1][a.0] == oa || out[a.1][a.0] == c
        }),
{
    let wi = w as int;
    let t = p[seed.1][seed.0];
    let one = seq![seed];
    assert(is_like(p, wi, t, tol, seed));
    assert(is_path(p, wi, t, tol, one) && one[0] == seed && one.last() == seed);
    if is_reached(p, wi, t, tol, seed, a) {
        let path = choose|path: Seq<Point>| #[trigger]
            is_path(p, wi, t, tol, path) && path[0] == seed && path.last() == a;
        assert(is_like(p, wi, t, tol, path[path.len() - 1]));
        if are_beside(a, b) && is_like(p, wi, t, tol, b) {
            let more = path.push(b);
            assert forall|i: int| 0 <= i < more.len() implies #[trigger] is_like(
                p,
                wi,
                t,
                tol,
                more[i],
            ) by {
                if i < path.len() {
                    assert(is_like(p, wi, t, tol, path[i]));
                }
            }
            assert forall|i: int| 0 <= i < more.len() - 1 implies #[trigger] are_beside(
                more[i],
                more[i + 1],
            ) by {
                if i < path.len() - 1 {
                    assert(are_beside(path[i], path[i + 1]));
                }
            }
            assert(is_path(p, wi, t, tol, more) && more[0] == seed && more.last() == b);
        }
    }
}

} // verus!
