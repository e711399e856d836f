//! The frames of animated pictures: GIF and WebP files, and still pictures as one frame.

use crate::media::{
    is_sound_loaded, is_sound_picture, load_picture, loaded_view, res_loaded, Loaded, LoadedView,
};
use crate::paths::{ext_of, extension};
use crate::text::{concat2, concat3, same};
use image::AnimationDecoder;
use std::io::Cursor;
use vstd::prelude::*;

verus! {

// ── animated WebP files ─────────────────────────────────────────────────────

/// Whether four bytes at a position spell these letters.
pub open spec fn tag_at(b: Seq<u8>, p: int, t: (char, char, char, char)) -> bool {
    0 <= p && p + 4 <= b.len() && b[p] as char == t.0 && b[p + 1] as char == t.1 && b[p
        + 2] as char == t.2 && b[p + 3] as char == t.3
}

/// The number that two bytes at a position make, the low one first.
pub open spec fn two_bytes(b: Seq<u8>, p: int) -> nat {
    b[p] as nat + b[p + 1] as nat * 0x100
}

/// The number that three bytes at a position make, the low one first.
pub open spec fn three_bytes(b: Seq<u8>, p: int) -> nat {
    two_bytes(b, p) + b[p + 2] as nat * 0x1_0000
}

/// The number that four bytes at a position make, the low one first.
pub open spec fn four_bytes(b: Seq<u8>, p: int) -> nat {
    three_bytes(b, p) + b[p + 3] as nat * 0x100_0000
}

/// The size of a chunk with its padding.
pub open spec fn padded(n: nat) -> nat {
    if n % 2 == 1 && n < 0xffff_ffff {
        n + 1
    } else {
        n
    }
}

/// Whether bytes are those of an animated WebP file.
pub open spec fn is_animated_webp(b: Seq<u8>) -> bool {
    &&& b.len() >= 30
    &&& tag_at(b, 0, ('R', 'I', 'F', 'F'))
    &&& tag_at(b, 8, ('W', 'E', 'B', 'P'))
    &&& tag_at(b, 12, ('V', 'P', '8', 'X'))
    &&& b[20] / 2 % 2 == 1
}

pub open spec fn is_frame_chunk(b: Seq<u8>, p: int) -> bool {
    tag_at(b, p, ('A', 'N', 'M', 'F'))
}

/// The first chunk with a frame from position `p` on, before `end`, and how many there are.
pub open spec fn frame_chunks(b: Seq<u8>, p: int, end: int) -> (int, nat)
    decreases
            (if p < b.len() {
                b.len() - p
            } else {
                0
            }),
{
    if p < 0 || p >= end || p + 8 > b.len() {
        (p, 0)
    } else {
        let rest = frame_chunks(b, p + 8 + padded(four_bytes(b, p + 4)), end);
        if is_frame_chunk(b, p) {
            (p, rest.1 + 1)
        } else {
            rest
        }
    }
}

/// Whether the colors of a frame, where they have their transparency in a chunk of its own,
/// are as many as the frame has pixels: its width and height are those of the chunk. Bytes
/// that are no key frame are refused by themselves.
pub open spec fn frame_fits(b: Seq<u8>, p: int) -> bool {
    if p + 32 <= b.len() && tag_at(b, p + 24, ('A', 'L', 'P', 'H')) {
        let q = p + 40 + padded(four_bytes(b, p + 28));
        q + 10 > b.len() || b[q] % 2 == 1 || b[q + 3] != 0x9d || b[q + 4] != 0x01 || b[q + 5]
            != 0x2a || (two_bytes(b, q + 6) % 0x4000 == three_bytes(b, p + 14) + 1 && two_bytes(
            b,
            q + 8,
        ) % 0x4000 == three_bytes(b, p + 17) + 1)
    } else {
        true
    }
}

/// Whether `n` frames fit, from the one at position `p` on.
pub open spec fn frames_fit(b: Seq<u8>, p: int, n: nat) -> bool
    decreases n,
{
    n == 0 || p < 0 || p + 8 > b.len() || !is_frame_chunk(b, p) || (frame_fits(b, p)
        && frames_fit(b, p + 8 + four_bytes(b, p + 4), (n - 1) as nat))
}

/// Whether the canvas of a WebP file has few enough pixels for its bytes to be counted in 32
/// bits; one with more pixels than that is refused by itself.
pub open spec fn canvas_fits(b: Seq<u8>) -> bool {
    let n = (three_bytes(b, 24) + 1) * (three_bytes(b, 27) + 1);
    n < 0x4000_0000 || n > 0xffff_ffff
}

/// Whether bytes, where they are an animated WebP file, have a canvas and frames that fit.
/// `image` panics on others: it takes the colors of a frame to be as many as its pixels,
/// and multiplies the size of the canvas in 32 bits. Every frame counts here, also one behind
/// a frame that cannot be decoded.
pub open spec fn is_safe(b: Seq<u8>) -> bool {
    is_animated_webp(b) ==> {
        let start = 20 + padded(four_bytes(b, 16)) as int;
        let size = four_bytes(b, 4) as int;
        let end = start + if size > 12 {
            size - 12
        } else {
            0
        };
        let chunks = frame_chunks(b, start, end);
        canvas_fits(b) && frames_fit(b, chunks.0, chunks.1)
    }
}

fn has_tag(b: &[u8], p: usize, t: (char, char, char, char)) -> (r: bool)
    ensures
        r == tag_at(b@, p as int, t),
{
    p <= b.len() && b.len() - p >= 4 && b[p] as char == t.0 && b[p + 1] as char == t.1 && b[p
        + 2] as char == t.2 && b[p + 3] as char == t.3
}

fn read_two(b: &[u8], p: usize) -> (r: u64)
    requires
        p + 2 <= b@.len(),
    ensures
        r == two_bytes(b@, p as int),
        r <= 0xffff,
{
    b[p] as u64 + b[p + 1] as u64 * 0x100
}

fn read_three(b: &[u8], p: usize) -> (r: u64)
    requires
        p + 3 <= b@.len(),
    ensures
        r == three_bytes(b@, p as int),
        r <= 0xff_ffff,
{
    assert(b.len() <= usize::MAX);
    read_two(b, p) + b[p + 2] as u64 * 0x1_0000
}

fn read_four(b: &[u8], p: usize) -> (r: u64)
    requires
        p + 4 <= b@.len(),
    ensures
        r == four_bytes(b@, p as int),
        r <= 0xffff_ffff,
{
    assert(b.len() <= usize::MAX);
    read_three(b, p) + b[p + 3] as u64 * 0x100_0000
}

fn pad(n: u64) -> (r: u64)
    requires
        n <= 0xffff_ffff,
    ensures
        r == padded(n as nat),
        r <= 0xffff_ffff,
{
    if n % 2 == 1 && n < 0xffff_ffff {
        n + 1
    } else {
        n
    }
}

fn does_frame_fit(b: &[u8], p: usize) -> (r: bool)
    requires
        p <= b@.len(),
    ensures
        r == frame_fits(b@, p as int),
{
    let left: usize = b.len() - p;
    if left < 32 || !has_tag(b, p + 24, ('A', 'L', 'P', 'H')) {
        return true;
    }
    let skip: u64 = 40 + pad(read_four(b, p + 28));
    if skip + 10 > left as u64 {
        return true;
    }
    let q: usize = p + skip as usize;
    if b[q] % 2 == 1 || b[q + 3] != 0x9d || b[q + 4] != 0x01 || b[q + 5] != 0x2a {
        return true;
    }
    read_two(b, q + 6) % 0x4000 == read_three(b, p + 14) + 1 && read_two(b, q + 8) % 0x4000
        == read_three(b, p + 17) + 1
}

/// Where the first frame is, if there is one, and how many there are.
fn find_frames(b: &[u8], start: u64, end: u64) -> (r: (u64, u64))
    requires
        start <= 0x2_0000_0000,
        end <= 0x4_0000_0000,
    ensures
        r.1 == frame_chunks(b@, start as int, end as int).1,
        r.1 > 0 ==> r.0 == frame_chunks(b@, start as int, end as int).0,
{
    let mut p: u64 = start;
    let mut first: u64 = start;
    let mut count: u64 = 0;
    let ghost whole = frame_chunks(b@, start as int, end as int);
    while p < end && b.len() as u64 >= 8 && p <= b.len() as u64 - 8
        invariant
            p <= 0x6_0000_0000,
            count <= p,
            end <= 0x4_0000_0000,
            whole == frame_chunks(b@, start as int, end as int),
            whole.1 == count + frame_chunks(b@, p as int, end as int).1,
            count == 0 ==> whole.0 == frame_chunks(b@, p as int, end as int).0,
            count > 0 ==> whole.0 == first,
        decreases
                (if p < b@.len() {
                    b@.len() - p
                } else {
                    0
                }),
    {
        let at: usize = p as usize;
        if has_tag(b, at, ('A', 'N', 'M', 'F')) {
            if count == 0 {
                first = p;
            }
            count = count + 1;
        }
        p = p + 8 + pad(read_four(b, at + 4));
    }
    (first, count)
}

fn do_frames_fit(b: &[u8], first: u64, count: u64) -> (r: bool)
    ensures
        r == frames_fit(b@, first as int, count as nat),
{
    let mut p: u64 = first;
    let mut left: u64 = count;
    while left > 0 && b.len() as u64 >= 8 && p <= b.len() as u64 - 8
        invariant
            frames_fit(b@, first as int, count as nat) == frames_fit(b@, p as int, left as nat),
        decreases left,
    {
        let at: usize = p as usize;
        if !has_tag(b, at, ('A', 'N', 'M', 'F')) {
            return true;
        }
        if !does_frame_fit(b, at) {
            return false;
        }
        let size = read_four(b, at + 4);
        if size > b.len() as u64 - 8 - p {
            proof {
                assert(frames_fit(b@, p + 8 + size, (left - 1) as nat));
            }
            return true;
        }
        p = p + 8 + size;
        left = left - 1;
    }
    true
}

/// Whether the bytes of a picture can be handed to the decoder.
pub fn is_safe_picture(b: &[u8]) -> (r: bool)
    ensures
        r == is_safe(b@),
{
    if b.len() < 30 || !has_tag(b, 0, ('R', 'I', 'F', 'F')) || !has_tag(
        b,
        8,
        ('W', 'E', 'B', 'P'),
    ) || !has_tag(b, 12, ('V', 'P', '8', 'X')) || b[20] / 2 % 2 != 1 {
        return true;
    }
    let w: u64 = read_three(b, 24) + 1;
    let h: u64 = read_three(b, 27) + 1;
    assert(0 <= w * h <= 0x100_0000 * 0x100_0000) by (nonlinear_arith)
        requires
            0 <= w <= 0x100_0000,
            0 <= h <= 0x100_0000,
    ;
    let n: u64 = w * h;
    if n >= 0x4000_0000 && n <= 0xffff_ffff {
        return false;
    }
    let start: u64 = 20 + pad(read_four(b, 16));
    let size = read_four(b, 4);
    let end: u64 = if size > 12 {
        start + (size - 12)
    } else {
        start
    };
    let (first, count) = find_frames(b, start, end);
    count == 0 || do_frames_fit(b, first, count)
}

// ── frames ──────────────────────────────────────────────────────────────────

/// A frame of an animation: its width and height, how long it stays, in milliseconds, as a
/// fraction, and its samples: four for each pixel, row by row.
pub type Frame = (u32, u32, u32, u32, Vec<u8>);

/// What a [`Frame`] stands for.
pub type FrameView = (u32, u32, u32, u32, Seq<u8>);

pub open spec fn frames_view(v: Seq<Frame>) -> Seq<FrameView> {
    Seq::new(v.len(), |i: int| (v[i].0, v[i].1, v[i].2, v[i].3, v[i].4@))
}

/// What came of reading frames: the frames, or a fault, with whether it came behind the
/// head of the file.
pub open spec fn res_frames(r: Result<Vec<Frame>, (bool, String)>) -> Result<
    Seq<FrameView>,
    (bool, Seq<char>),
> {
    match r {
        Ok(v) => Ok(frames_view(v@)),
        Err((late, e)) => Err((late, e@)),
    }
}

/// Whether each frame has the samples that its size asks for.
pub open spec fn are_sound_frames(v: Seq<FrameView>) -> bool {
    forall|i: int| 0 <= i < v.len() ==> (#[trigger] v[i]).4.len() == v[i].0 * v[i].1 * 4
}

/// The frames of a GIF file, as `image` decodes them, or why it has none.
pub uninterp spec fn gif_frames(bytes: Seq<u8>) -> Result<
    Seq<(u32, u32, u32, u32, Seq<u8>)>,
    (bool, Seq<char>),
>;

/// Whether a WebP file is animated, or why it is no such file.
pub uninterp spec fn webp_animation(bytes: Seq<u8>) -> Result<bool, Seq<char>>;

/// The frames of an animated WebP file, as `image` decodes them, or why it has none.
pub uninterp spec fn webp_frames(bytes: Seq<u8>) -> Result<
    Seq<(u32, u32, u32, u32, Seq<u8>)>,
    (bool, Seq<char>),
>;

/// `image::codecs::gif::GifDecoder::new` and the `collect_frames` of its `into_frames`: the
/// frames of a GIF file, each with as many samples as its size asks for. Which ones they
/// are, is named here, not spelled out.
#[verifier::external_body]
fn read_gif(bytes: &[u8]) -> (r: Result<Vec<Frame>, (bool, String)>)
    ensures
        res_frames(r) == gif_frames(bytes@),
        r matches Ok(v) ==> are_sound_frames(frames_view(v@)),
{
    let decoder = image::codecs::gif::GifDecoder::new(Cursor::new(bytes))
        .map_err(|e| (false, e.to_string()))?;
    let frames = decoder.into_frames().collect_frames().map_err(|e| (true, e.to_string()))?;
    Ok(frames.into_iter().map(|f| {
        let (n, d) = f.delay().numer_denom_ms();
        let buf = f.into_buffer();
        (buf.width(), buf.height(), n, d, buf.into_raw())
    }).collect())
}

/// `image::codecs::webp::WebPDecoder::new` with its `has_animation`.
#[verifier::external_body]
fn probe_webp(bytes: &[u8]) -> (r: Result<bool, String>)
    ensures
        match r {
            Ok(b) => webp_animation(bytes@) == Ok::<bool, Seq<char>>(b),
            Err(e) => webp_animation(bytes@) == Err::<bool, Seq<char>>(e@),
        },
{
    image::codecs::webp::WebPDecoder::new(Cursor::new(bytes)).map(|d| d.has_animation())
        .map_err(|e| e.to_string())
}

/// `image::codecs::webp::WebPDecoder::new` and the `collect_frames` of its `into_frames`:
/// the frames of an animated WebP file, each with as many samples as its size asks for.
/// Which ones they are, is named here, not spelled out.
#[verifier::external_body]
fn read_webp(bytes: &[u8]) -> (r: Result<Vec<Frame>, (bool, String)>)
    requires
        webp_animation(bytes@) == Ok::<bool, Seq<char>>(true),
        is_safe(bytes@),
    ensures
        res_frames(r) == webp_frames(bytes@),
        r matches Ok(v) ==> are_sound_frames(frames_view(v@)),
{
    let decoder = image::codecs::webp::WebPDecoder::new(Cursor::new(bytes))
        .map_err(|e| (false, e.to_string()))?;
    let frames = decoder.into_frames().collect_frames().map_err(|e| (true, e.to_string()))?;
    Ok(frames.into_iter().map(|f| {
        let (n, d) = f.delay().numer_denom_ms();
        let buf = f.into_buffer();
        (buf.width(), buf.height(), n, d, buf.into_raw())
    }).collect())
}

/// A picture and how long it stays, in milliseconds, as a fraction; a picture that does not
/// move has no such time.
pub type Shot = (Loaded, Option<(u32, u32)>);

/// What a [`Shot`] stands for.
pub type ShotView = (LoadedView, Option<(u32, u32)>);

pub open spec fn shots_view(v: Seq<Shot>) -> Seq<ShotView> {
    Seq::new(v.len(), |i: int| (loaded_view(v[i].0), v[i].1))
}

pub open spec fn res_shots(r: Result<Vec<Shot>, String>) -> Result<Seq<ShotView>, Seq<char>> {
    match r {
        Ok(v) => Ok(shots_view(v@)),
        Err(e) => Err(e@),
    }
}

/// Whether each picture has all its samples.
pub open spec fn are_sound_shots(v: Seq<ShotView>) -> bool {
    forall|i: int| 0 <= i < v.len() ==> is_sound_loaded((#[trigger] v[i]).0)
}

/// A frame as a picture of four channels, a byte each.
pub open spec fn frame_shot(f: FrameView) -> ShotView {
    ((f.0, f.1, 4, 4, f.4), Some((f.2, f.3)))
}

/// What is answered of the frames of an animation.
pub open spec fn animation_answer(
    kind: Seq<char>,
    frames: Result<Seq<FrameView>, (bool, Seq<char>)>,
) -> Result<Seq<ShotView>, Seq<char>> {
    match frames {
        Ok(v) => Ok(Seq::new(v.len(), |i: int| frame_shot(v[i]))),
        Err((false, e)) => Err(kind + " decode: "@ + e),
        Err((true, e)) => Err(kind + " frames: "@ + e),
    }
}

/// What is answered of a picture that does not move: one frame.
pub open spec fn still_answer(path: Seq<char>, picture: Result<LoadedView, Seq<char>>) -> Result<
    Seq<ShotView>,
    Seq<char>,
> {
    match picture {
        Ok(p) => Ok(seq![(p, None)]),
        Err(e) => Err("decode "@ + path + ": "@ + e),
    }
}

/// How the frames of a file are read.
#[derive(Clone, Copy, PartialEq, Eq, Structural)]
pub enum FrameSource {
    Gif,
    Webp,
    Still,
}

/// How the frames of a file are read, by its path and by what is known of it as a WebP
/// file: one that is not animated is a single frame.
pub open spec fn frame_source(path: Seq<char>, webp: Result<bool, Seq<char>>) -> Result<
    FrameSource,
    Seq<char>,
> {
    if extension(path) == "gif"@ {
        Ok(FrameSource::Gif)
    } else if extension(path) == "webp"@ {
        match webp {
            Err(e) => Err("webp decode: "@ + e),
            Ok(true) => Ok(FrameSource::Webp),
            Ok(false) => Ok(FrameSource::Still),
        }
    } else {
        Ok(FrameSource::Still)
    }
}

/// The frames of an animation, as pictures.
pub fn answer_frames(kind: &str, frames: Result<Vec<Frame>, (bool, String)>) -> (r: Result<
    Vec<Shot>,
    String,
>)
    ensures
        res_shots(r) == animation_answer(kind@, res_frames(frames)),
        frames matches Ok(v) && are_sound_frames(frames_view(v@)) ==> (res_shots(r) matches Ok(
            shots,
        ) && are_sound_shots(shots)),
{
    match frames {
        Ok(v) => {
            let ghost fv = frames_view(v@);
            let ghost want = Seq::new(fv.len(), |i: int| frame_shot(fv[i]));
            let total: usize = v.len();
            let mut rest = v;
            let mut out: Vec<Shot> = Vec::new();
            assert(rest@ =~= v@.skip(0));
            assert(shots_view(out@) =~= want.take(0));
            let mut i: usize = 0;
            while i < total
                invariant
                    i <= total,
                    total == v@.len(),
                    rest@ == v@.skip(i as int),
                    fv == frames_view(v@),
                    want == Seq::new(fv.len(), |i: int| frame_shot(fv[i])),
                    shots_view(out@) == want.take(i as int),
                decreases total - i,
            {
                let ghost was = out@;
                let (w, h, n, d, data) = rest.remove(0);
                assert(rest@ =~= v@.skip(i + 1));
                assert(fv[i as int] == (w, h, n, d, data@));
                out.push(((w, h, 4, 4, data), Some((n, d))));
                assert(shots_view(out@) =~= shots_view(was).push(want[i as int]));
                i = i + 1;
                assert(shots_view(out@) =~= want.take(i as int));
            }
            assert(want.take(total as int) =~= want);
            proof {
                if are_sound_frames(fv) {
                    assert forall|k: int| 0 <= k < want.len() implies is_sound_loaded(
                        (#[trigger] want[k]).0,
                    ) by {
                        assert(fv[k].4.len() == fv[k].0 * fv[k].1 * 4);
                    }
                }
            }
            Ok(out)
        },
        Err((false, e)) => Err(concat3(kind, " decode: ", e.as_str())),
        Err((true, e)) => Err(concat3(kind, " frames: ", e.as_str())),
    }
}

/// What came of decoding a picture that does not move, as frames.
pub fn answer_still(path: &str, picture: Result<Loaded, String>) -> (r: Result<Vec<Shot>, String>)
    ensures
        res_shots(r) == still_answer(path@, res_loaded(picture)),
{
    match picture {
        Ok(p) => {
            let ghost pv = loaded_view(p);
            let mut out: Vec<Shot> = Vec::new();
            out.push((p, None));
            assert(shots_view(out@) =~= seq![(pv, None::<(u32, u32)>)]);
            Ok(out)
        },
        Err(e) => {
            let mut s = concat3("decode ", path, ": ");
            s.push_str(e.as_str());
            Err(s)
        },
    }
}

/// The frames of a picture file: those of a GIF or an animated WebP file, by the extension
/// of its path, and one frame for any other picture.
pub fn op_img_open_frames(bytes: &[u8], path: &str) -> (r: Result<Vec<Shot>, String>)
    requires
        extension(path@) == "gif"@ || is_safe(bytes@),
    ensures
        match frame_source(path@, webp_animation(bytes@)) {
            Err(e) => res_shots(r) == Err::<Seq<ShotView>, Seq<char>>(e),
            Ok(FrameSource::Gif) => res_shots(r) == animation_answer("gif"@, gif_frames(bytes@)),
            Ok(FrameSource::Webp) => res_shots(r) == animation_answer(
                "webp"@,
                webp_frames(bytes@),
            ),
            Ok(FrameSource::Still) => exists|p: Result<LoadedView, Seq<char>>| #[trigger]
                is_sound_picture(p) && res_shots(r) == still_answer(path@, p),
        },
        res_shots(r) matches Ok(v) ==> are_sound_shots(v),
{
    let ext = ext_of(path);
    if same(ext.as_str(), "gif") {
        return answer_frames("gif", read_gif(bytes));
    }
    if same(ext.as_str(), "webp") {
        match probe_webp(bytes) {
            Err(e) => {
                return Err(concat2("webp decode: ", e.as_str()));
            },
            Ok(true) => {
                return answer_frames("webp", read_webp(bytes));
            },
            Ok(false) => {},
        }
    }
    let picture = load_picture(bytes);
    let ghost p = res_loaded(picture);
    let r = answer_still(path, picture);
    assert(is_sound_picture(p) && res_shots(r) == still_answer(path@, p));
    r
}

} // verus!
