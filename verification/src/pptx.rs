//! Changes to a pptx package, part by part: pictures, text boxes and speaker
//! notes on a slide.

use crate::container::{
    as_items, bytes_of_text, holds_parts, is_taken, item_names, lossy_text, parts_view, push_part, text_of_bytes,
    zip_entry, zip_find, Part, PartView,
};
use crate::deep::push_deep;
use crate::formats::{escaped, xml_escape};
use crate::links::{
    lemma_added_link, lemma_new_link, lemma_way_leads, notes_way, takes_link,
};
use crate::markdown::digits_end;
use crate::notes::{are_plain_lines, make_notes_xml, notes_xml, written_notes_say_their_lines};
use crate::paths::{after_last, resolve_zip_path, resolved_path};
use crate::slides::{
    all_notes_read_back, by_number, drawing_tags, is_slide_name, lower_number, notes_part,
    notes_read_back, pptx_slides, rels_of, slide_names, slide_notes, slide_parts, slides_from,
};
use crate::sorting::{is_stable_sort, is_weak_order, lemma_stable_sort_exists, order_of};
use crate::text::{
    char_is_digit, chars_of, concat2, concat3, contains_text, copy_text, decimal, find_from,
    find_text, has_text, is_digit, lemma_decimal_digits, lines, parse_nat, parse_u64_at,
    push_chars, push_decimal, same, slice_text, text_lines,
};
use crate::value::{cell_text, cell_to_string, field, Json, Value};
use crate::workbook::{item_texts, texts_of_items};
use crate::xml::{
    document_xml, opt_text, paragraphs, reads_back, relationship_target, rels_relationship_target, starts_with,
    text_starts_with, xml_items, EventView,
};
use vstd::prelude::*;
use vstd::utf8::{encode_utf8, valid_utf8};

verus! {

// ── text patches ────────────────────────────────────────────────────────────

/// `s` with `what` put in before the first occurrence of `mark`.
pub open spec fn put_before(s: Seq<char>, mark: Seq<char>, what: Seq<char>) -> Seq<char> {
    match find_from(s, mark, 0) {
        Some(p) => s.subrange(0, p) + what + s.subrange(p, s.len() as int),
        None => s,
    }
}

pub fn insert_before(s: &str, mark: &str, what: &str) -> (r: String)
    ensures
        r@ == put_before(s@, mark@, what@),
{
    let cs = chars_of(s);
    let ms = chars_of(mark);
    match find_text(&cs, &ms, 0) {
        Some(p) => {
            let mut out = slice_text(&cs, 0, p);
            out.push_str(what);
            push_chars(&mut out, &cs, p, cs.len());
            out
        },
        None => copy_text(s),
    }
}

/// The decimal form of a whole number.
pub open spec fn int_text(i: int) -> Seq<char> {
    if i < 0 {
        "-"@ + decimal((-i) as nat)
    } else {
        decimal(i as nat)
    }
}

fn push_int(out: &mut String, i: i64)
    ensures
        final(out)@ == old(out)@ + int_text(i as int),
{
    let ghost before = out@;
    if i < 0 {
        out.push_str("-");
        let m: u64 = (-(i as i128)) as u64;
        push_decimal(out, m);
    } else {
        push_decimal(out, i as u64);
    }
    assert(out@ =~= before + int_text(i as int));
}

/// The 32-bit number that stands in `s` at position `q`.
pub open spec fn number_at(s: Seq<char>, q: int) -> Option<nat> {
    parse_nat(s.subrange(q, digits_end(s, q)), u32::MAX as nat)
}

fn read_number_at(cs: &Vec<char>, q: usize) -> (r: Option<u32>)
    requires
        q <= cs@.len(),
    ensures
        match r {
            Some(v) => number_at(cs@, q as int) == Some(v as nat),
            None => number_at(cs@, q as int) is None,
        },
{
    let mut e: usize = q;
    while e < cs.len() && char_is_digit(cs[e])
        invariant
            q <= e <= cs@.len(),
            digits_end(cs@, q as int) == digits_end(cs@, e as int),
        decreases cs@.len() - e,
    {
        e = e + 1;
    }
    match parse_u64_at(cs, q, e) {
        Some(v) => if v <= 0xffff_ffff {
            Some(v as u32)
        } else {
            None
        },
        None => None,
    }
}

/// A number plus one, in 32 bits.
pub open spec fn next_u32(v: nat) -> u32 {
    ((v + 1) % 0x1_0000_0000) as u32
}

pub open spec fn larger(a: u32, b: u32) -> u32 {
    if b > a {
        b
    } else {
        a
    }
}

/// The relationship number to use next, going on from position `i` with `rid`: one
/// more than the highest number in an `Id="rId…"`.
pub open spec fn rid_from(s: Seq<char>, i: int, rid: u32) -> u32
    decreases s.len() - i,
{
    match find_from(s, "Id=\"rId"@, i) {
        Some(p) => {
            let q = p + "Id=\"rId"@.len();
            if 0 <= i < q <= s.len() {
                rid_from(
                    s,
                    q,
                    match number_at(s, q) {
                        Some(v) => larger(rid, next_u32(v)),
                        None => rid,
                    },
                )
            } else {
                rid
            }
        },
        None => rid,
    }
}

fn next_rid(s: &str) -> (r: u32)
    ensures
        r == rid_from(s@, 0, 1),
{
    let cs = chars_of(s);
    let pat = chars_of("Id=\"rId");
    proof {
        reveal_strlit("Id=\"rId");
    }
    let total: usize = cs.len();
    let mut rid: u32 = 1;
    let mut i: usize = 0;
    loop
        invariant_except_break
            i <= cs@.len(),
            total == cs@.len(),
            cs@ == s@,
            pat@ == "Id=\"rId"@,
            pat@.len() > 0,
            rid_from(s@, i as int, rid) == rid_from(s@, 0, 1),
        ensures
            rid == rid_from(s@, 0, 1),
        decreases cs@.len() - i,
    {
        match find_text(&cs, &pat, i) {
            Some(p) => {
                assert(p + pat@.len() <= total);
                let q: usize = p + pat.len();
                match read_number_at(&cs, q) {
                    Some(v) => {
                        let n: u32 = v.wrapping_add(1);
                        if n > rid {
                            rid = n;
                        }
                    },
                    None => {},
                }
                i = q;
            },
            None => {
                break;
            },
        }
    }
    rid
}

// ── parts ───────────────────────────────────────────────────────────────────

/// The position of the first part with a name, from `i` on, or the number of parts.
pub open spec fn part_pos(parts: Seq<PartView>, name: Seq<char>, i: int) -> int
    decreases parts.len() - i,
{
    if 0 <= i < parts.len() && parts[i].0 != name {
        part_pos(parts, name, i + 1)
    } else {
        i
    }
}

pub open spec fn has_part(parts: Seq<PartView>, name: Seq<char>) -> bool {
    part_pos(parts, name, 0) < parts.len()
}

/// The bytes of the first part with a name.
pub open spec fn part_data(parts: Seq<PartView>, name: Seq<char>) -> Option<Seq<u8>> {
    let p = part_pos(parts, name, 0);
    if 0 <= p < parts.len() {
        Some(parts[p].1)
    } else {
        None
    }
}

/// The parts with new bytes for the first one of a name; the same parts where none
/// has that name.
pub open spec fn with_data(parts: Seq<PartView>, name: Seq<char>, data: Seq<u8>) -> Seq<PartView> {
    let p = part_pos(parts, name, 0);
    if 0 <= p < parts.len() {
        parts.update(p, (name, data))
    } else {
        parts
    }
}

fn find_part(parts: &Vec<Part>, name: &str) -> (r: usize)
    ensures
        r == part_pos(parts_view(parts@), name@, 0),
        r <= parts@.len(),
        r < parts@.len() ==> parts@[r as int].0@ == name@,
{
    let ghost pv = parts_view(parts@);
    let mut i: usize = 0;
    while i < parts.len()
        invariant
            i <= parts@.len(),
            pv == parts_view(parts@),
            part_pos(pv, name@, 0) == part_pos(pv, name@, i as int),
        decreases parts@.len() - i,
    {
        assert(pv[i as int] == (parts@[i as int].0@, parts@[i as int].1@));
        if same(parts[i].0.as_str(), name) {
            return i;
        }
        i = i + 1;
    }
    i
}

fn set_data(parts: &mut Vec<Part>, name: &str, data: Vec<u8>)
    ensures
        parts_view(final(parts)@) == with_data(parts_view(old(parts)@), name@, data@),
{
    let ghost before = parts_view(parts@);
    let p = find_part(parts, name);
    if p < parts.len() {
        let ghost d = data@;
        parts.set(p, (copy_text(name), data));
        assert(parts_view(parts@) =~= before.update(p as int, (name@, d)));
    }
}

/// The text of a part, with whatever is no text replaced.
fn part_text(parts: &Vec<Part>, name: &str) -> (r: Option<String>)
    ensures
        match (r, part_data(parts_view(parts@), name@)) {
            (Some(s), Some(d)) => s@ == lossy_text(d),
            (None, None) => true,
            _ => false,
        },
{
    let p = find_part(parts, name);
    if p < parts.len() {
        assert(parts_view(parts@)[p as int].1 == parts@[p as int].1@);
        Some(text_of_bytes(parts[p].1.as_slice()))
    } else {
        None
    }
}

/// The highest number right after a prefix, among the names of the first `n` parts.
pub open spec fn highest(parts: Seq<PartView>, prefix: Seq<char>, n: nat) -> u32
    decreases n,
{
    if n == 0 || n > parts.len() {
        0
    } else {
        let before = highest(parts, prefix, (n - 1) as nat);
        let name = parts[n - 1].0;
        if starts_with(name, prefix) {
            match number_at(name, prefix.len() as int) {
                Some(v) => larger(before, v as u32),
                None => before,
            }
        } else {
            before
        }
    }
}

/// The number that a new part takes.
pub open spec fn free_number(parts: Seq<PartView>, prefix: Seq<char>) -> u32 {
    next_u32(highest(parts, prefix, parts.len()) as nat)
}

fn find_free_number(parts: &Vec<Part>, prefix: &str) -> (r: u32)
    ensures
        r == free_number(parts_view(parts@), prefix@),
{
    let ghost pv = parts_view(parts@);
    let pc = chars_of(prefix);
    let mut top: u32 = 0;
    let mut i: usize = 0;
    while i < parts.len()
        invariant
            i <= parts@.len(),
            pv == parts_view(parts@),
            pc@ == prefix@,
            top == highest(pv, prefix@, i as nat),
        decreases parts@.len() - i,
    {
        assert(pv[i as int] == (parts@[i as int].0@, parts@[i as int].1@));
        if text_starts_with(parts[i].0.as_str(), prefix) {
            let cs = chars_of(parts[i].0.as_str());
            match read_number_at(&cs, pc.len()) {
                Some(v) => {
                    if v > top {
                        top = v;
                    }
                },
                None => {},
            }
        }
        i = i + 1;
    }
    top.wrapping_add(1)
}

// ── slides ──────────────────────────────────────────────────────────────────

pub open spec fn slide_part(n: u64) -> Seq<char> {
    "ppt/slides/slide"@ + decimal(n as nat) + ".xml"@
}

pub open spec fn slide_rels(n: u64) -> Seq<char> {
    "ppt/slides/_rels/slide"@ + decimal(n as nat) + ".xml.rels"@
}

/// The complaint that a slide is not there.
pub open spec fn no_slide(n: u64, path: Seq<char>) -> Seq<char> {
    "slide "@ + decimal(n as nat) + " not found in "@ + path
}

fn slide_part_name(n: u64) -> (r: String)
    ensures
        r@ == slide_part(n),
{
    let mut s = copy_text("ppt/slides/slide");
    push_decimal(&mut s, n);
    s.push_str(".xml");
    s
}

fn slide_rels_name(n: u64) -> (r: String)
    ensures
        r@ == slide_rels(n),
{
    let mut s = copy_text("ppt/slides/_rels/slide");
    push_decimal(&mut s, n);
    s.push_str(".xml.rels");
    s
}

fn no_slide_text(n: u64, path: &str) -> (r: String)
    ensures
        r@ == no_slide(n, path@),
{
    let mut s = copy_text("slide ");
    push_decimal(&mut s, n);
    s.push_str(" not found in ");
    s.push_str(path);
    s
}

/// A relationship element.
pub open spec fn rel_element(rid: u32, kind: Seq<char>, target: Seq<char>) -> Seq<char> {
    "<Relationship Id=\"rId"@ + decimal(rid as nat)
        + "\" Type=\"http://schemas.openxmlformats.org/officeDocument/2006/relationships/"@ + kind
        + "\" Target=\""@ + target + "\"/>"@
}

fn make_rel(rid: u32, kind: &str, target: &str) -> (r: String)
    ensures
        r@ == rel_element(rid, kind@, target@),
{
    let mut s = copy_text("<Relationship Id=\"rId");
    push_decimal(&mut s, rid as u64);
    s.push_str("\" Type=\"http://schemas.openxmlformats.org/officeDocument/2006/relationships/");
    s.push_str(kind);
    s.push_str("\" Target=\"");
    s.push_str(target);
    s.push_str("\"/>");
    s
}

/// A relationship part that holds one element.
pub open spec fn new_rels(rel: Seq<char>) -> Seq<char> {
    "<?xml version=\"1.0\" encoding=\"UTF-8\" standalone=\"yes\"?>\n<Relationships xmlns=\"http://schemas.openxmlformats.org/package/2006/relationships\">"@
        + rel + "</Relationships>\n"@
}

fn make_rels(rel: &str) -> (r: String)
    ensures
        r@ == new_rels(rel@),
{
    let mut s = copy_text(
        "<?xml version=\"1.0\" encoding=\"UTF-8\" standalone=\"yes\"?>\n<Relationships xmlns=\"http://schemas.openxmlformats.org/package/2006/relationships\">",
    );
    s.push_str(rel);
    s.push_str("</Relationships>\n");
    s
}

/// The number that a new relationship of a part takes.
pub open spec fn rel_number(parts: Seq<PartView>, rels: Seq<char>) -> u32 {
    match part_data(parts, rels) {
        Some(d) => rid_from(lossy_text(d), 0, 1),
        None => 1,
    }
}

/// The parts with one more relationship in a relationship part, which is made
/// where it is not there.
pub open spec fn with_rel(
    parts: Seq<PartView>,
    rels: Seq<char>,
    kind: Seq<char>,
    target: Seq<char>,
) -> Seq<PartView> {
    let rel = rel_element(rel_number(parts, rels), kind, target);
    match part_data(parts, rels) {
        Some(d) => with_data(
            parts,
            rels,
            encode_utf8(put_before(lossy_text(d), "</Relationships>"@, rel)),
        ),
        None => parts.push((rels, encode_utf8(new_rels(rel)))),
    }
}

fn add_rel(parts: &mut Vec<Part>, rels: &str, kind: &str, target: &str) -> (rid: u32)
    ensures
        parts_view(final(parts)@) == with_rel(parts_view(old(parts)@), rels@, kind@, target@),
        rid == rel_number(parts_view(old(parts)@), rels@),
{
    match part_text(parts, rels) {
        Some(s) => {
            let rid = next_rid(s.as_str());
            let rel = make_rel(rid, kind, target);
            let new_s = insert_before(s.as_str(), "</Relationships>", rel.as_str());
            set_data(parts, rels, bytes_of_text(new_s.as_str()));
            rid
        },
        None => {
            let rel = make_rel(1, kind, target);
            let s = make_rels(rel.as_str());
            push_part(parts, copy_text(rels), bytes_of_text(s.as_str()));
            1
        },
    }
}

/// The parts with `what` put before the first `mark` of a part, where it is there.
pub open spec fn with_patch(
    parts: Seq<PartView>,
    name: Seq<char>,
    mark: Seq<char>,
    what: Seq<char>,
) -> Seq<PartView> {
    match part_data(parts, name) {
        Some(d) => with_data(parts, name, encode_utf8(put_before(lossy_text(d), mark, what))),
        None => parts,
    }
}

fn patch(parts: &mut Vec<Part>, name: &str, mark: &str, what: &str)
    ensures
        parts_view(final(parts)@) == with_patch(parts_view(old(parts)@), name@, mark@, what@),
{
    match part_text(parts, name) {
        Some(s) => {
            let new_s = insert_before(s.as_str(), mark, what);
            set_data(parts, name, bytes_of_text(new_s.as_str()));
        },
        None => {},
    }
}

// ── pictures ────────────────────────────────────────────────────────────────

/// The content type of an image by its extension.
pub open spec fn content_type(ext: Seq<char>) -> Seq<char> {
    if ext == "png"@ {
        "image/png"@
    } else if ext == "jpg"@ || ext == "jpeg"@ {
        "image/jpeg"@
    } else if ext == "gif"@ {
        "image/gif"@
    } else if ext == "bmp"@ {
        "image/bmp"@
    } else if ext == "tif"@ || ext == "tiff"@ {
        "image/tiff"@
    } else {
        "application/octet-stream"@
    }
}

pub fn image_content_type(ext: &str) -> (r: &'static str)
    ensures
        r@ == content_type(ext@),
{
    if same(ext, "png") {
        "image/png"
    } else if same(ext, "jpg") || same(ext, "jpeg") {
        "image/jpeg"
    } else if same(ext, "gif") {
        "image/gif"
    } else if same(ext, "bmp") {
        "image/bmp"
    } else if same(ext, "tif") || same(ext, "tiff") {
        "image/tiff"
    } else {
        "application/octet-stream"
    }
}

/// Where something is placed on a slide, in English metric units.
#[derive(Clone, Copy)]
pub struct Frame {
    pub x: i64,
    pub y: i64,
    pub cx: i64,
    pub cy: i64,
}

/// Pixels at 96 dots per inch in English metric units, in 64 bits.
pub fn px_to_emu(px: i64) -> (r: i64)
    ensures
        r == px.wrapping_mul(9525),
{
    px.wrapping_mul(9525)
}

/// The offset and size of a frame as attributes.
pub open spec fn frame_xml(f: Frame) -> Seq<char> {
    "<a:off x=\""@ + int_text(f.x as int) + "\" y=\""@ + int_text(f.y as int)
        + "\"/><a:ext cx=\""@ + int_text(f.cx as int) + "\" cy=\""@ + int_text(f.cy as int)
        + "\"/>"@
}

fn make_frame_xml(f: Frame) -> (r: String)
    ensures
        r@ == frame_xml(f),
{
    let mut s = copy_text("<a:off x=\"");
    push_int(&mut s, f.x);
    s.push_str("\" y=\"");
    push_int(&mut s, f.y);
    s.push_str("\"/><a:ext cx=\"");
    push_int(&mut s, f.cx);
    s.push_str("\" cy=\"");
    push_int(&mut s, f.cy);
    s.push_str("\"/>");
    s
}

/// A picture shape.
pub open spec fn picture_xml(img: u32, rid: u32, f: Frame) -> Seq<char> {
    "<p:pic><p:nvPicPr><p:cNvPr id=\""@ + decimal(((1000 + img) % 0x1_0000_0000) as nat)
        + "\" name=\"Picture "@ + decimal(img as nat)
        + "\"/><p:cNvPicPr><a:picLocks noChangeAspect=\"1\"/></p:cNvPicPr><p:nvPr/></p:nvPicPr><p:blipFill><a:blip r:embed=\"rId"@
        + decimal(rid as nat)
        + "\"/><a:stretch><a:fillRect/></a:stretch></p:blipFill><p:spPr><a:xfrm>"@ + frame_xml(f)
        + "</a:xfrm><a:prstGeom prst=\"rect\"><a:avLst/></a:prstGeom></p:spPr></p:pic>"@
}

fn make_picture_xml(img: u32, rid: u32, f: Frame) -> (r: String)
    ensures
        r@ == picture_xml(img, rid, f),
{
    let cid: u32 = 1000u32.wrapping_add(img);
    let mut s = copy_text("<p:pic><p:nvPicPr><p:cNvPr id=\"");
    push_decimal(&mut s, cid as u64);
    s.push_str("\" name=\"Picture ");
    push_decimal(&mut s, img as u64);
    s.push_str(
        "\"/><p:cNvPicPr><a:picLocks noChangeAspect=\"1\"/></p:cNvPicPr><p:nvPr/></p:nvPicPr><p:blipFill><a:blip r:embed=\"rId",
    );
    push_decimal(&mut s, rid as u64);
    s.push_str("\"/><a:stretch><a:fillRect/></a:stretch></p:blipFill><p:spPr><a:xfrm>");
    s.push_str(make_frame_xml(f).as_str());
    s.push_str("</a:xfrm><a:prstGeom prst=\"rect\"><a:avLst/></a:prstGeom></p:spPr></p:pic>");
    s
}

pub open spec fn media_target(img: u32, ext: Seq<char>) -> Seq<char> {
    "../media/image"@ + decimal(img as nat) + "."@ + ext
}

pub open spec fn media_part(img: u32, ext: Seq<char>) -> Seq<char> {
    "ppt/media/image"@ + decimal(img as nat) + "."@ + ext
}

/// The parts whose content types declare an image extension, where a list of
/// content types is there.
pub open spec fn with_extension(parts: Seq<PartView>, ext: Seq<char>) -> Seq<PartView> {
    let ct = "[Content_Types].xml"@;
    match part_data(parts, ct) {
        Some(d) => if contains_text(lossy_text(d), "Extension=\""@ + ext + "\""@) {
            parts
        } else {
            with_patch(
                parts,
                ct,
                "</Types>"@,
                "<Default Extension=\""@ + ext + "\" ContentType=\""@ + content_type(ext)
                    + "\"/>"@,
            )
        },
        None => parts,
    }
}

fn declare_extension(parts: &mut Vec<Part>, ext: &str)
    ensures
        parts_view(final(parts)@) == with_extension(parts_view(old(parts)@), ext@),
{
    match part_text(parts, "[Content_Types].xml") {
        Some(s) => {
            let known = concat3("Extension=\"", ext, "\"");
            if !has_text(s.as_str(), known.as_str()) {
                let mut decl = concat3("<Default Extension=\"", ext, "\" ContentType=\"");
                decl.push_str(image_content_type(ext));
                decl.push_str("\"/>");
                patch(parts, "[Content_Types].xml", "</Types>", decl.as_str());
            }
        },
        None => {},
    }
}

/// The parts of a package with a picture on slide `n`: the relationship, the shape
/// in the slide's shape tree, the content type and the media part.
pub open spec fn with_picture(
    parts: Seq<PartView>,
    n: u64,
    ext: Seq<char>,
    f: Frame,
    image: Seq<u8>,
) -> Seq<PartView> {
    let img = free_number(parts, "ppt/media/image"@);
    let rels = slide_rels(n);
    let linked = with_rel(parts, rels, "image"@, media_target(img, ext));
    let shown = with_patch(
        linked,
        slide_part(n),
        "</p:spTree>"@,
        picture_xml(img, rel_number(parts, rels), f),
    );
    with_extension(shown, ext).push((media_part(img, ext), image))
}

/// Puts a picture on slide `slide_no`.
pub fn op_slides_add_image(
    parts: Vec<Part>,
    slide_no: u64,
    ext: &str,
    frame: Frame,
    image: Vec<u8>,
    path: &str,
) -> (r: Result<Vec<Part>, String>)
    ensures
        match r {
            Ok(v) => has_part(parts_view(parts@), slide_part(slide_no)) && parts_view(v@)
                == with_picture(parts_view(parts@), slide_no, ext@, frame, image@),
            Err(e) => !has_part(parts_view(parts@), slide_part(slide_no)) && e@ == no_slide(
                slide_no,
                path@,
            ),
        },
{
    let slide = slide_part_name(slide_no);
    if find_part(&parts, slide.as_str()) >= parts.len() {
        return Err(no_slide_text(slide_no, path));
    }
    let mut out = parts;
    let img = find_free_number(&out, "ppt/media/image");
    let mut target = copy_text("../media/image");
    push_decimal(&mut target, img as u64);
    target.push_str(".");
    target.push_str(ext);
    let rid = add_rel(&mut out, slide_rels_name(slide_no).as_str(), "image", target.as_str());
    patch(
        &mut out,
        slide.as_str(),
        "</p:spTree>",
        make_picture_xml(img, rid, frame).as_str(),
    );
    declare_extension(&mut out, ext);
    let mut media = copy_text("ppt/media/image");
    push_decimal(&mut media, img as u64);
    media.push_str(".");
    media.push_str(ext);
    push_part(&mut out, media, image);
    Ok(out)
}

// ── text boxes ──────────────────────────────────────────────────────────────

/// A text box shape.
pub open spec fn text_box_xml(n: u64, f: Frame, sz: i64, text: Seq<char>) -> Seq<char> {
    "<p:sp><p:nvSpPr><p:cNvPr id=\""@ + decimal(((5000 + n) % 0x1_0000_0000_0000_0000) as nat)
        + "\" name=\"TextBox "@ + decimal(n as nat)
        + "\"/><p:cNvSpPr txBox=\"1\"/><p:nvPr/></p:nvSpPr><p:spPr><a:xfrm>"@ + frame_xml(f)
        + "</a:xfrm><a:prstGeom prst=\"rect\"><a:avLst/></a:prstGeom></p:spPr><p:txBody><a:bodyPr/><a:lstStyle/><a:p><a:r><a:rPr lang=\"en-US\" sz=\""@
        + int_text(sz as int) + "\"/><a:t>"@ + escaped(text)
        + "</a:t></a:r></a:p></p:txBody></p:sp>"@
}

fn make_text_box_xml(n: u64, f: Frame, sz: i64, text: &str) -> (r: String)
    ensures
        r@ == text_box_xml(n, f, sz, text@),
{
    let id: u64 = 5000u64.wrapping_add(n);
    let mut s = copy_text("<p:sp><p:nvSpPr><p:cNvPr id=\"");
    push_decimal(&mut s, id);
    s.push_str("\" name=\"TextBox ");
    push_decimal(&mut s, n);
    s.push_str("\"/><p:cNvSpPr txBox=\"1\"/><p:nvPr/></p:nvSpPr><p:spPr><a:xfrm>");
    s.push_str(make_frame_xml(f).as_str());
    s.push_str(
        "</a:xfrm><a:prstGeom prst=\"rect\"><a:avLst/></a:prstGeom></p:spPr><p:txBody><a:bodyPr/><a:lstStyle/><a:p><a:r><a:rPr lang=\"en-US\" sz=\"",
    );
    push_int(&mut s, sz);
    s.push_str("\"/><a:t>");
    s.push_str(xml_escape(text).as_str());
    s.push_str("</a:t></a:r></a:p></p:txBody></p:sp>");
    s
}

/// Puts a text box on slide `slide_no`; `sz` is the font size in hundredths of a point.
pub fn op_slides_add_text(
    parts: Vec<Part>,
    slide_no: u64,
    text: &str,
    frame: Frame,
    sz: i64,
    path: &str,
) -> (r: Result<Vec<Part>, String>)
    ensures
        match r {
            Ok(v) => has_part(parts_view(parts@), slide_part(slide_no)) && parts_view(v@)
                == with_patch(
                parts_view(parts@),
                slide_part(slide_no),
                "</p:spTree>"@,
                text_box_xml(slide_no, frame, sz, text@),
            ),
            Err(e) => !has_part(parts_view(parts@), slide_part(slide_no)) && e@ == no_slide(
                slide_no,
                path@,
            ),
        },
{
    let slide = slide_part_name(slide_no);
    if find_part(&parts, slide.as_str()) >= parts.len() {
        return Err(no_slide_text(slide_no, path));
    }
    let mut out = parts;
    patch(
        &mut out,
        slide.as_str(),
        "</p:spTree>",
        make_text_box_xml(slide_no, frame, sz, text).as_str(),
    );
    Ok(out)
}

// ── speaker notes ───────────────────────────────────────────────────────────

/// The lines of notes that the options give: an array, a text with line breaks, or
/// any other value as one line.
pub open spec fn wanted_notes(opts: Json) -> Result<Seq<Seq<char>>, Seq<char>> {
    match field(opts, "notes"@) {
        None => Err("missing notes (string or array of lines)"@),
        Some(Json::Array(a)) => Ok(item_texts(a)),
        Some(Json::Text(s)) => Ok(lines(s)),
        Some(v) => Ok(seq![cell_text(v)]),
    }
}

pub fn notes_lines(opts: &Value) -> (r: Result<Vec<String>, String>)
    ensures
        match r {
            Ok(v) => wanted_notes(opts.deep_view()) == Ok::<Seq<Seq<char>>, Seq<char>>(
                v.deep_view(),
            ),
            Err(e) => wanted_notes(opts.deep_view()) == Err::<Seq<Seq<char>>, Seq<char>>(e@),
        },
{
    match opts.get("notes") {
        None => Err(copy_text("missing notes (string or array of lines)")),
        Some(v) => match v {
            Value::Array(a) => {
                proof {
                    crate::value::lemma_array_view(a);
                }
                Ok(texts_of_items(a))
            },
            Value::Text(s) => Ok(text_lines(s.as_str())),
            _ => {
                let mut out: Vec<String> = Vec::new();
                push_deep(&mut out, cell_to_string(v));
                assert(out.deep_view() =~= seq![cell_text(v.deep_view())]);
                Ok(out)
            },
        },
    }
}

/// The notes part that a slide is already linked to.
pub open spec fn linked_notes(parts: Seq<PartView>, n: u64) -> Option<Seq<char>> {
    match part_data(parts, slide_rels(n)) {
        Some(d) => match relationship_target(
            xml_items(encode_utf8(lossy_text(d)), true),
            "notesSlide"@,
            0,
        ) {
            Some(t) => Some(resolved_path("ppt/slides"@, t)),
            None => None,
        },
        None => None,
    }
}

fn find_linked_notes(parts: &Vec<Part>, n: u64) -> (r: Option<String>)
    ensures
        opt_text(r) == linked_notes(parts_view(parts@), n),
{
    match part_text(parts, slide_rels_name(n).as_str()) {
        Some(s) => {
            let bytes = bytes_of_text(s.as_str());
            match rels_relationship_target(bytes.as_slice(), "notesSlide") {
                Some(t) => Some(resolve_zip_path("ppt/slides", t.as_str())),
                None => None,
            }
        },
        None => None,
    }
}

pub open spec fn notes_part_name(idx: u32) -> Seq<char> {
    "ppt/notesSlides/notesSlide"@ + decimal(idx as nat) + ".xml"@
}

pub open spec fn notes_rels_name(idx: u32) -> Seq<char> {
    "ppt/notesSlides/_rels/notesSlide"@ + decimal(idx as nat) + ".xml.rels"@
}

/// The parts with a new notes part linked from a slide: its relationship, the way
/// back to the slide, its content type, and the part itself.
pub open spec fn with_new_notes(parts: Seq<PartView>, n: u64, ls: Seq<Seq<char>>) -> Seq<PartView> {
    let idx = free_number(parts, "ppt/notesSlides/notesSlide"@);
    let linked = with_rel(
        parts,
        slide_rels(n),
        "notesSlide"@,
        notes_way(idx),
    );
    let back = linked.push(
        (
            notes_rels_name(idx),
            encode_utf8(
                new_rels(
                    rel_element(1, "slide"@, "../slides/slide"@ + decimal(n as nat) + ".xml"@),
                ),
            ),
        ),
    );
    let declared = with_patch(
        back,
        "[Content_Types].xml"@,
        "</Types>"@,
        "<Override PartName=\"/"@ + notes_part_name(idx)
            + "\" ContentType=\"application/vnd.openxmlformats-officedocument.presentationml.notesSlide+xml\"/>"@,
    );
    declared.push((notes_part_name(idx), encode_utf8(notes_xml(ls))))
}

/// The parts with the notes of a slide set: in the part that it is linked to, or in
/// a new one.
pub open spec fn with_notes(parts: Seq<PartView>, n: u64, ls: Seq<Seq<char>>) -> Seq<PartView> {
    match linked_notes(parts, n) {
        Some(p) => with_data(parts, p, encode_utf8(notes_xml(ls))),
        None => with_new_notes(parts, n, ls),
    }
}

/// Sets the speaker notes of slide `slide_no`.
pub fn op_slides_set_notes(
    parts: Vec<Part>,
    slide_no: u64,
    ls: &Vec<String>,
    path: &str,
) -> (r: Result<Vec<Part>, String>)
    ensures
        match r {
            Ok(v) => has_part(parts_view(parts@), slide_part(slide_no)) && parts_view(v@)
                == with_notes(parts_view(parts@), slide_no, ls.deep_view()),
            Err(e) => !has_part(parts_view(parts@), slide_part(slide_no)) && e@ == no_slide(
                slide_no,
                path@,
            ),
        },
{
    let slide = slide_part_name(slide_no);
    if find_part(&parts, slide.as_str()) >= parts.len() {
        return Err(no_slide_text(slide_no, path));
    }
    let mut out = parts;
    let xml = make_notes_xml(ls);
    match find_linked_notes(&out, slide_no) {
        Some(p) => {
            set_data(&mut out, p.as_str(), bytes_of_text(xml.as_str()));
        },
        None => {
            let idx = find_free_number(&out, "ppt/notesSlides/notesSlide");
            let mut target = copy_text("../notesSlides/notesSlide");
            push_decimal(&mut target, idx as u64);
            target.push_str(".xml");
            let rid = add_rel(
                &mut out,
                slide_rels_name(slide_no).as_str(),
                "notesSlide",
                target.as_str(),
            );
            let mut back_target = copy_text("../slides/slide");
            push_decimal(&mut back_target, slide_no);
            back_target.push_str(".xml");
            let back = make_rels(make_rel(1, "slide", back_target.as_str()).as_str());
            let mut rels_name = copy_text("ppt/notesSlides/_rels/notesSlide");
            push_decimal(&mut rels_name, idx as u64);
            rels_name.push_str(".xml.rels");
            push_part(&mut out, rels_name, bytes_of_text(back.as_str()));
            let mut name = copy_text("ppt/notesSlides/notesSlide");
            push_decimal(&mut name, idx as u64);
            name.push_str(".xml");
            let mut decl = concat2("<Override PartName=\"/", name.as_str());
            decl.push_str(
                "\" ContentType=\"application/vnd.openxmlformats-officedocument.presentationml.notesSlide+xml\"/>",
            );
            patch(&mut out, "[Content_Types].xml", "</Types>", decl.as_str());
            push_part(&mut out, name, bytes_of_text(xml.as_str()));
        },
    }
    Ok(out)
}

// ── what notes leave alone ──────────────────────────────────────────────────

/// Whether setting the notes of slide `n` writes a part.
pub open spec fn notes_touch(parts: Seq<PartView>, n: u64, name: Seq<char>) -> bool {
    match linked_notes(parts, n) {
        Some(p) => name == p,
        None => {
            let idx = free_number(parts, "ppt/notesSlides/notesSlide"@);
            ||| name == slide_rels(n)
            ||| name == notes_rels_name(idx)
            ||| name == "[Content_Types].xml"@
            ||| name == notes_part_name(idx)
        },
    }
}

/// The part that the notes of slide `n` are written to.
pub open spec fn notes_target(parts: Seq<PartView>, n: u64) -> Seq<char> {
    match linked_notes(parts, n) {
        Some(p) => p,
        None => notes_part_name(free_number(parts, "ppt/notesSlides/notesSlide"@)),
    }
}

proof fn lemma_pos_bounds(parts: Seq<PartView>, name: Seq<char>, i: int)
    requires
        0 <= i <= parts.len(),
    ensures
        i <= part_pos(parts, name, i) <= parts.len(),
        part_pos(parts, name, i) < parts.len() ==> parts[part_pos(parts, name, i)].0 == name,
        forall|k: int| i <= k < part_pos(parts, name, i) ==> (#[trigger] parts[k]).0 != name,
    decreases parts.len() - i,
{
    if i < parts.len() && parts[i].0 != name {
        lemma_pos_bounds(parts, name, i + 1);
    }
}

/// Parts in which each position has the same name find the same positions.
proof fn lemma_same_names(a: Seq<PartView>, b: Seq<PartView>, name: Seq<char>, i: int)
    requires
        a.len() == b.len(),
        forall|k: int| 0 <= k < a.len() ==> (#[trigger] a[k]).0 == b[k].0,
        0 <= i <= a.len(),
    ensures
        part_pos(a, name, i) == part_pos(b, name, i),
    decreases a.len() - i,
{
    if i < a.len() && a[i].0 != name {
        assert(a[i].0 == b[i].0);
        lemma_same_names(a, b, name, i + 1);
    } else if i < a.len() {
        assert(a[i].0 == b[i].0);
    }
}

proof fn lemma_data_beside(
    parts: Seq<PartView>,
    name: Seq<char>,
    data: Seq<u8>,
    q: Seq<char>,
)
    requires
        q != name,
    ensures
        part_data(with_data(parts, name, data), q) == part_data(parts, q),
{
    let after = with_data(parts, name, data);
    lemma_pos_bounds(parts, name, 0);
    lemma_pos_bounds(parts, q, 0);
    assert forall|k: int| 0 <= k < parts.len() implies (#[trigger] after[k]).0 == parts[k].0 by {}
    lemma_same_names(after, parts, q, 0);
}

proof fn lemma_pushed_beside(parts: Seq<PartView>, part: PartView, q: Seq<char>, i: int)
    requires
        0 <= i <= parts.len(),
    ensures
        part_pos(parts, q, i) < parts.len() ==> part_pos(parts.push(part), q, i) == part_pos(
            parts,
            q,
            i,
        ),
        part_pos(parts, q, i) >= parts.len() && q != part.0 ==> part_pos(parts.push(part), q, i)
            == parts.len() + 1,
        part_pos(parts, q, i) >= parts.len() && q == part.0 ==> part_pos(parts.push(part), q, i)
            == parts.len(),
    decreases parts.len() - i,
{
    let after = parts.push(part);
    if i < parts.len() {
        assert(after[i] == parts[i]);
        if parts[i].0 != q {
            lemma_pushed_beside(parts, part, q, i + 1);
        }
    } else {
        assert(after[i] == part);
        if q != part.0 {
            assert(part_pos(after, q, i + 1) == i + 1);
        }
    }
}

proof fn lemma_pushed_data(parts: Seq<PartView>, part: PartView, q: Seq<char>)
    requires
        q != part.0,
    ensures
        part_data(parts.push(part), q) == part_data(parts, q),
{
    lemma_pushed_beside(parts, part, q, 0);
    lemma_pos_bounds(parts, q, 0);
}

/// Setting the notes of a slide leaves every part as it was but the ones that it writes.
pub proof fn notes_leave_the_rest(
    parts: Seq<PartView>,
    n: u64,
    ls: Seq<Seq<char>>,
    name: Seq<char>,
)
    requires
        !notes_touch(parts, n, name),
    ensures
        part_data(with_notes(parts, n, ls), name) == part_data(parts, name),
{
    match linked_notes(parts, n) {
        Some(p) => {
            lemma_data_beside(parts, p, encode_utf8(notes_xml(ls)), name);
        },
        None => {
            let idx = free_number(parts, "ppt/notesSlides/notesSlide"@);
            let rels = slide_rels(n);
            let target = notes_way(idx);
            let linked = with_rel(parts, rels, "notesSlide"@, target);
            let rel = rel_element(rel_number(parts, rels), "notesSlide"@, target);
            match part_data(parts, rels) {
                Some(d) => {
                    lemma_data_beside(
                        parts,
                        rels,
                        encode_utf8(put_before(lossy_text(d), "</Relationships>"@, rel)),
                        name,
                    );
                },
                None => {
                    lemma_pushed_data(parts, (rels, encode_utf8(new_rels(rel))), name);
                },
            }
            let way_back = (
                notes_rels_name(idx),
                encode_utf8(
                    new_rels(
                        rel_element(1, "slide"@, "../slides/slide"@ + decimal(n as nat) + ".xml"@),
                    ),
                ),
            );
            let back = linked.push(way_back);
            lemma_pushed_data(linked, way_back, name);
            let what = "<Override PartName=\"/"@ + notes_part_name(idx)
                + "\" ContentType=\"application/vnd.openxmlformats-officedocument.presentationml.notesSlide+xml\"/>"@;
            let declared = with_patch(back, "[Content_Types].xml"@, "</Types>"@, what);
            match part_data(back, "[Content_Types].xml"@) {
                Some(d) => {
                    lemma_data_beside(
                        back,
                        "[Content_Types].xml"@,
                        encode_utf8(put_before(lossy_text(d), "</Types>"@, what)),
                        name,
                    );
                },
                None => {},
            }
            lemma_pushed_data(
                declared,
                (notes_part_name(idx), encode_utf8(notes_xml(ls))),
                name,
            );
        },
    }
}

/// An archive gives for a name what its parts have under it.
proof fn lemma_entry_of_parts(archive: Seq<u8>, parts: Seq<PartView>, name: Seq<char>)
    requires
        holds_parts(archive, parts),
    ensures
        zip_entry(archive, name) == match part_data(parts, name) {
            Some(d) => Ok::<Seq<u8>, Seq<char>>(d),
            None => Err("entry not found: "@ + name),
        },
{
    lemma_pos_bounds(parts, name, 0);
    let p = part_pos(parts, name, 0);
    if p < parts.len() {
        assert(zip_find(archive, parts[p].0) == Ok::<Option<Seq<u8>>, Seq<char>>(
            Some(parts[p].1),
        ));
    } else {
        assert(!is_taken(parts, name));
    }
}

/// A slide that is linked to the part that notes were written to reads these as its notes,
/// line by line.
pub proof fn set_notes_are_read(
    parts: Seq<PartView>,
    n: u64,
    ls: Seq<Seq<char>>,
    after: Seq<u8>,
    slide: Seq<char>,
)
    requires
        holds_parts(after, with_notes(parts, n, ls)),
        linked_notes(parts, n) is Some ==> has_part(parts, notes_target(parts, n)),
        notes_part(after, slide) == Some(notes_target(parts, n)),
        are_plain_lines(ls),
        notes_read_back(after, slide),
    ensures
        slide_notes(after, slide) == ls,
{
    let all = with_notes(parts, n, ls);
    let p = notes_target(parts, n);
    lemma_pos_bounds(parts, p, 0);
    let i = match linked_notes(parts, n) {
        Some(_) => part_pos(parts, p, 0),
        None => all.len() - 1,
    };
    assert(all[i] == (p, encode_utf8(notes_xml(ls))));
    assert(zip_find(after, all[i].0) == Ok::<Option<Seq<u8>>, Seq<char>>(Some(all[i].1)));
    written_notes_say_their_lines(ls);
}

/// A slide whose own part, relationships and notes are not written reads as before once the
/// notes of another one are set.
pub proof fn other_slides_stay(
    parts: Seq<PartView>,
    n: u64,
    ls: Seq<Seq<char>>,
    before: Seq<u8>,
    after: Seq<u8>,
    slide: Seq<char>,
)
    requires
        holds_parts(before, parts),
        holds_parts(after, with_notes(parts, n, ls)),
        !notes_touch(parts, n, slide),
        !notes_touch(parts, n, rels_of(slide)),
        notes_part(before, slide) is Some ==> !notes_touch(parts, n, notes_part(before, slide)->0),
    ensures
        zip_entry(after, slide) == zip_entry(before, slide),
        notes_part(after, slide) == notes_part(before, slide),
        slide_notes(after, slide) == slide_notes(before, slide),
{
    let all = with_notes(parts, n, ls);
    notes_leave_the_rest(parts, n, ls, slide);
    lemma_entry_of_parts(before, parts, slide);
    lemma_entry_of_parts(after, all, slide);
    let rels = rels_of(slide);
    notes_leave_the_rest(parts, n, ls, rels);
    lemma_entry_of_parts(before, parts, rels);
    lemma_entry_of_parts(after, all, rels);
    match notes_part(before, slide) {
        Some(p) => {
            notes_leave_the_rest(parts, n, ls, p);
            lemma_entry_of_parts(before, parts, p);
            lemma_entry_of_parts(after, all, p);
        },
        None => {},
    }
}

proof fn lemma_no_slash(s: Seq<char>, a: int, n: int)
    requires
        0 < a <= n <= s.len(),
        s[a - 1] == '/',
        forall|k: int| a <= k < n ==> #[trigger] s[k] != '/',
    ensures
        after_last(s, '/', n) == a,
    decreases n,
{
    if n > a {
        assert(s[n - 1] != '/');
        lemma_no_slash(s, a, n - 1);
    }
}

/// The directory, the file and the relationship part of a slide.
proof fn lemma_slide_paths(n: u64)
    ensures
        after_last(slide_part(n), '/', slide_part(n).len() as int) == 11,
        slide_part(n).subrange(0, 10) == "ppt/slides"@,
        rels_of(slide_part(n)) == slide_rels(n),
{
    reveal_strlit("ppt/slides/slide");
    reveal_strlit("ppt/slides/_rels/slide");
    reveal_strlit("ppt/slides");
    reveal_strlit("/_rels/");
    reveal_strlit(".xml");
    reveal_strlit(".rels");
    reveal_strlit(".xml.rels");
    lemma_decimal_digits(n as nat);
    let s = slide_part(n);
    let d = decimal(n as nat);
    assert(s.len() == 16 + d.len() + 4);
    assert forall|k: int| 11 <= k < s.len() implies #[trigger] s[k] != '/' by {
        if 16 <= k < 16 + d.len() {
            assert(s[k] == d[k - 16]);
            assert(is_digit(d[k - 16]));
        } else if k >= 16 + d.len() {
            assert(s[k] == ".xml"@[k - 16 - d.len()]);
        } else {
            assert(s[k] == "ppt/slides/slide"@[k]);
        }
    }
    assert(s[10] == "ppt/slides/slide"@[10]);
    lemma_no_slash(s, 11, s.len() as int);
    assert(s.subrange(0, 10) =~= "ppt/slides"@);
    let file = s.subrange(11, s.len() as int);
    assert("ppt/slides"@ + "/_rels/"@ + file + ".rels"@ =~= slide_rels(n));
}

/// Notes that were set on a slide that had some are read from it line by line, where its
/// relationships are well-formed text and its notes are a part of their own. The lines may
/// hold markup characters; a carriage return would be read as a line feed.
pub proof fn replaced_notes_are_read(
    parts: Seq<PartView>,
    n: u64,
    ls: Seq<Seq<char>>,
    after: Seq<u8>,
)
    requires
        holds_parts(after, with_notes(parts, n, ls)),
        linked_notes(parts, n) is Some,
        has_part(parts, notes_target(parts, n)),
        notes_target(parts, n) != slide_rels(n),
        part_data(parts, slide_rels(n)) matches Some(d) ==> valid_utf8(d),
        are_plain_lines(ls),
        notes_read_back(after, slide_part(n)),
    ensures
        slide_notes(after, slide_part(n)) == ls,
{
    let rels = slide_rels(n);
    lemma_slide_paths(n);
    notes_leave_the_rest(parts, n, ls, rels);
    lemma_entry_of_parts(after, with_notes(parts, n, ls), rels);
    let d = part_data(parts, rels)->0;
    vstd::utf8::decode_utf8_encode_utf8(d);
    assert(encode_utf8(lossy_text(d)) == d);
    assert(notes_part(after, slide_part(n)) == Some(notes_target(parts, n)));
    set_notes_are_read(parts, n, ls, after, slide_part(n));
}

/// What a relationship part holds once one more relationship is in it.
proof fn lemma_rel_data(
    parts: Seq<PartView>,
    rels: Seq<char>,
    kind: Seq<char>,
    target: Seq<char>,
)
    ensures
        part_data(with_rel(parts, rels, kind, target), rels) == Some(
            match part_data(parts, rels) {
                Some(d) => encode_utf8(
                    put_before(
                        lossy_text(d),
                        "</Relationships>"@,
                        rel_element(rel_number(parts, rels), kind, target),
                    ),
                ),
                None => encode_utf8(
                    new_rels(rel_element(rel_number(parts, rels), kind, target)),
                ),
            },
        ),
{
    let rel = rel_element(rel_number(parts, rels), kind, target);
    let after = with_rel(parts, rels, kind, target);
    lemma_pos_bounds(parts, rels, 0);
    match part_data(parts, rels) {
        Some(d) => {
            assert forall|k: int| 0 <= k < parts.len() implies (#[trigger] after[k]).0
                == parts[k].0 by {}
            lemma_same_names(after, parts, rels, 0);
        },
        None => {
            lemma_pushed_beside(parts, (rels, encode_utf8(new_rels(rel))), rels, 0);
        },
    }
}

/// The relationships of a slide are none of the other parts that new notes write.
proof fn lemma_rels_apart(n: u64, idx: u32)
    ensures
        slide_rels(n) != notes_rels_name(idx),
        slide_rels(n) != "[Content_Types].xml"@,
        slide_rels(n) != notes_part_name(idx),
{
    reveal_strlit("ppt/slides/_rels/slide");
    reveal_strlit("ppt/notesSlides/_rels/notesSlide");
    reveal_strlit("ppt/notesSlides/notesSlide");
    reveal_strlit("[Content_Types].xml");
    assert(slide_rels(n)[0] == 'p' && slide_rels(n)[4] == 's');
    assert(notes_rels_name(idx)[4] == 'n');
    assert(notes_part_name(idx)[4] == 'n');
    assert("[Content_Types].xml"@[0] == '[');
}

/// What new notes leave in the relationships of their slide.
proof fn lemma_new_notes_link(parts: Seq<PartView>, n: u64, ls: Seq<Seq<char>>)
    ensures
        ({
            let idx = free_number(parts, "ppt/notesSlides/notesSlide"@);
            part_data(with_new_notes(parts, n, ls), slide_rels(n)) == part_data(
                with_rel(parts, slide_rels(n), "notesSlide"@, notes_way(idx)),
                slide_rels(n),
            )
        }),
{
    let name = slide_rels(n);
    let idx = free_number(parts, "ppt/notesSlides/notesSlide"@);
    lemma_rels_apart(n, idx);
    let linked = with_rel(parts, name, "notesSlide"@, notes_way(idx));
    let way_back = (
        notes_rels_name(idx),
        encode_utf8(
            new_rels(rel_element(1, "slide"@, "../slides/slide"@ + decimal(n as nat) + ".xml"@)),
        ),
    );
    let back = linked.push(way_back);
    lemma_pushed_data(linked, way_back, name);
    let what = "<Override PartName=\"/"@ + notes_part_name(idx)
        + "\" ContentType=\"application/vnd.openxmlformats-officedocument.presentationml.notesSlide+xml\"/>"@;
    let declared = with_patch(back, "[Content_Types].xml"@, "</Types>"@, what);
    match part_data(back, "[Content_Types].xml"@) {
        Some(d) => {
            lemma_data_beside(
                back,
                "[Content_Types].xml"@,
                encode_utf8(put_before(lossy_text(d), "</Types>"@, what)),
                name,
            );
        },
        None => {},
    }
    lemma_pushed_data(declared, (notes_part_name(idx), encode_utf8(notes_xml(ls))), name);
}

/// Notes that were set on a slide that had none are read from it line by line, where the
/// slide has no relationships yet or they can take one more.
pub proof fn new_notes_are_read(
    parts: Seq<PartView>,
    n: u64,
    ls: Seq<Seq<char>>,
    after: Seq<u8>,
)
    requires
        holds_parts(after, with_notes(parts, n, ls)),
        linked_notes(parts, n) is None,
        part_data(parts, slide_rels(n)) matches Some(d) ==> takes_link(lossy_text(d)),
        are_plain_lines(ls),
        notes_read_back(after, slide_part(n)),
    ensures
        slide_notes(after, slide_part(n)) == ls,
{
    let rels = slide_rels(n);
    let idx = free_number(parts, "ppt/notesSlides/notesSlide"@);
    let rid = rel_number(parts, rels);
    lemma_slide_paths(n);
    lemma_new_notes_link(parts, n, ls);
    lemma_rel_data(parts, rels, "notesSlide"@, notes_way(idx));
    lemma_entry_of_parts(after, with_notes(parts, n, ls), rels);
    let x = zip_entry(after, rels)->Ok_0;
    assert(reads_back(x, true));
    match part_data(parts, rels) {
        Some(d) => {
            lemma_added_link(lossy_text(d), rid, idx);
        },
        None => {
            let all = lemma_new_link(rid, idx);
            assert(xml_items(encode_utf8(document_xml(all)), true) == seq![EventView::Other]
                + all);
        },
    }
    assert(relationship_target(xml_items(x, true), "notesSlide"@, 0) == Some(notes_way(idx)));
    lemma_way_leads(idx);
    assert(notes_part(after, slide_part(n)) == Some(notes_target(parts, n)));
    set_notes_are_read(parts, n, ls, after, slide_part(n));
}

// ── a presentation with notes set ───────────────────────────────────────────

/// Whether the notes of a slide can be told apart from its relationships, where it has
/// some, and linked to it, where it has none.
pub open spec fn can_link(parts: Seq<PartView>, n: u64) -> bool {
    match linked_notes(parts, n) {
        Some(p) => has_part(parts, p) && p != slide_rels(n) && (part_data(parts, slide_rels(n))
            matches Some(d) ==> valid_utf8(d)),
        None => part_data(parts, slide_rels(n)) matches Some(d) ==> takes_link(lossy_text(d)),
    }
}

/// Whether the notes of slide `n` are no part that a slide is read from but slide `n` from its
/// notes: no slide, no relationships of one, and not the notes of another.
pub open spec fn has_own_notes(archive: Seq<u8>, parts: Seq<PartView>, n: u64) -> bool {
    forall|j: int|
        0 <= j < slide_parts(archive).len() ==> {
            let slide = #[trigger] slide_parts(archive)[j];
            &&& linked_notes(parts, n) matches Some(p) ==> p != slide && p != rels_of(slide)
            &&& slide != slide_part(n) ==> (notes_part(archive, slide) matches Some(q)
                ==> !notes_touch(parts, n, q))
        }
}

/// The names of parts.
spec fn names_of(parts: Seq<PartView>) -> Seq<Seq<char>> {
    Seq::new(parts.len(), |i: int| parts[i].0)
}

proof fn lemma_item_names(parts: Seq<PartView>, n: nat)
    requires
        n <= parts.len(),
    ensures
        item_names(as_items(parts), n) == names_of(parts).take(n as int),
    decreases n,
{
    if n > 0 {
        lemma_item_names(parts, (n - 1) as nat);
        assert(names_of(parts).take(n as int) =~= names_of(parts).take(n - 1).push(
            parts[n - 1].0,
        ));
    } else {
        assert(names_of(parts).take(0) =~= Seq::<Seq<char>>::empty());
    }
}

proof fn lemma_more_names(names: Seq<Seq<char>>, name: Seq<char>, n: nat)
    requires
        n <= names.len(),
    ensures
        slide_names(names.push(name), n) == slide_names(names, n),
    decreases n,
{
    if n > 0 {
        lemma_more_names(names, name, (n - 1) as nat);
        assert(names.push(name)[n - 1] == names[n - 1]);
    }
}

/// The slides among names.
spec fn all_slides(names: Seq<Seq<char>>) -> Seq<Seq<char>> {
    slide_names(names, names.len())
}

proof fn lemma_no_slide_more(parts: Seq<PartView>, part: PartView)
    requires
        !is_slide_name(part.0),
    ensures
        all_slides(names_of(parts.push(part))) == all_slides(names_of(parts)),
{
    let names = names_of(parts);
    assert(names_of(parts.push(part)) =~= names.push(part.0));
    lemma_more_names(names, part.0, names.len());
}

proof fn lemma_same_slides(parts: Seq<PartView>, name: Seq<char>, data: Seq<u8>)
    ensures
        names_of(with_data(parts, name, data)) == names_of(parts),
{
    lemma_pos_bounds(parts, name, 0);
    assert(names_of(with_data(parts, name, data)) =~= names_of(parts));
}

proof fn lemma_starts(s: Seq<char>)
    requires
        is_slide_name(s),
    ensures
        s.len() >= 16,
        s[0] == 'p',
        s[4] == 's',
        s[10] == '/',
        s[11] == 's',
        s.subrange(0, 10) == "ppt/slides"@,
{
    reveal_strlit("ppt/slides/slide");
    reveal_strlit("ppt/slides");
    let h = s.subrange(0, 16);
    assert(h[0] == s[0] && h[4] == s[4] && h[10] == s[10] && h[11] == s[11]);
    assert(s.subrange(0, 10) =~= h.subrange(0, 10));
    assert("ppt/slides/slide"@.subrange(0, 10) =~= "ppt/slides"@);
}

proof fn lemma_names_written(n: u64, idx: u32)
    ensures
        slide_rels(n).len() > 11 && slide_rels(n)[4] == 's' && slide_rels(n)[11] == '_',
        notes_rels_name(idx).len() > 11 && notes_rels_name(idx)[4] == 'n',
        notes_part_name(idx).len() > 11 && notes_part_name(idx)[4] == 'n',
        "[Content_Types].xml"@.len() > 11 && "[Content_Types].xml"@[0] == '[',
        !is_slide_name(slide_rels(n)),
        !is_slide_name(notes_rels_name(idx)),
        !is_slide_name(notes_part_name(idx)),
{
    reveal_strlit("ppt/slides/_rels/slide");
    reveal_strlit("ppt/notesSlides/_rels/notesSlide");
    reveal_strlit("ppt/notesSlides/notesSlide");
    reveal_strlit("[Content_Types].xml");
    if is_slide_name(slide_rels(n)) {
        lemma_starts(slide_rels(n));
    }
    if is_slide_name(notes_rels_name(idx)) {
        lemma_starts(notes_rels_name(idx));
    }
    if is_slide_name(notes_part_name(idx)) {
        lemma_starts(notes_part_name(idx));
    }
}

/// Setting notes leaves the slides of a presentation the same ones.
proof fn lemma_slides_stay(
    parts: Seq<PartView>,
    n: u64,
    ls: Seq<Seq<char>>,
    before: Seq<u8>,
    after: Seq<u8>,
)
    requires
        holds_parts(before, parts),
        holds_parts(after, with_notes(parts, n, ls)),
    ensures
        slide_parts(after) == slide_parts(before),
        slide_parts(before) == by_number(all_slides(names_of(parts))),
{
    let all = with_notes(parts, n, ls);
    match linked_notes(parts, n) {
        Some(p) => {
            lemma_same_slides(parts, p, encode_utf8(notes_xml(ls)));
        },
        None => {
            let idx = free_number(parts, "ppt/notesSlides/notesSlide"@);
            let rels = slide_rels(n);
            lemma_names_written(n, idx);
            let linked = with_rel(parts, rels, "notesSlide"@, notes_way(idx));
            let rel = rel_element(rel_number(parts, rels), "notesSlide"@, notes_way(idx));
            match part_data(parts, rels) {
                Some(d) => {
                    lemma_same_slides(
                        parts,
                        rels,
                        encode_utf8(put_before(lossy_text(d), "</Relationships>"@, rel)),
                    );
                },
                None => {
                    lemma_no_slide_more(parts, (rels, encode_utf8(new_rels(rel))));
                },
            }
            let way_back = (
                notes_rels_name(idx),
                encode_utf8(
                    new_rels(
                        rel_element(1, "slide"@, "../slides/slide"@ + decimal(n as nat) + ".xml"@),
                    ),
                ),
            );
            let back = linked.push(way_back);
            lemma_no_slide_more(linked, way_back);
            let what = "<Override PartName=\"/"@ + notes_part_name(idx)
                + "\" ContentType=\"application/vnd.openxmlformats-officedocument.presentationml.notesSlide+xml\"/>"@;
            let declared = with_patch(back, "[Content_Types].xml"@, "</Types>"@, what);
            match part_data(back, "[Content_Types].xml"@) {
                Some(d) => {
                    lemma_same_slides(
                        back,
                        "[Content_Types].xml"@,
                        encode_utf8(put_before(lossy_text(d), "</Types>"@, what)),
                    );
                },
                None => {},
            }
            lemma_no_slide_more(
                declared,
                (notes_part_name(idx), encode_utf8(notes_xml(ls))),
            );
        },
    }
    lemma_item_names(parts, parts.len());
    lemma_item_names(all, all.len());
    assert(names_of(parts).take(parts.len() as int) =~= names_of(parts));
    assert(names_of(all).take(all.len() as int) =~= names_of(all));
}

proof fn lemma_are_slides(names: Seq<Seq<char>>, n: nat)
    requires
        n <= names.len(),
    ensures
        slide_names(names, n).len() <= n,
        forall|i: int|
            0 <= i < slide_names(names, n).len() ==> is_slide_name(
                #[trigger] slide_names(names, n)[i],
            ),
    decreases n,
{
    if n > 0 {
        lemma_are_slides(names, (n - 1) as nat);
    }
}

proof fn lemma_sorted_are_slides(names: Seq<Seq<char>>)
    requires
        names.len() <= usize::MAX,
    ensures
        forall|i: int|
            0 <= i < by_number(all_slides(names)).len() ==> is_slide_name(
                #[trigger] by_number(all_slides(names))[i],
            ),
{
    let picked = all_slides(names);
    lemma_are_slides(names, names.len());
    let lt = lower_number(picked);
    let n = picked.len() as int;
    assert(is_weak_order(lt, n));
    lemma_stable_sort_exists(n, lt);
    let r = order_of(n, lt);
    assert(is_stable_sort(r, n, lt));
    assert forall|i: int| 0 <= i < by_number(picked).len() implies is_slide_name(
        #[trigger] by_number(picked)[i],
    ) by {
        assert(0 <= r[i] < n);
        assert(is_slide_name(picked[r[i] as int]));
    }
}

proof fn lemma_last_slash(s: Seq<char>, n: int, a: int)
    requires
        0 <= a < n <= s.len(),
        s[a] == '/',
    ensures
        a < after_last(s, '/', n) <= n,
        s[after_last(s, '/', n) - 1] == '/',
        forall|k: int| after_last(s, '/', n) <= k < n ==> #[trigger] s[k] != '/',
    decreases n,
{
    if s[n - 1] != '/' {
        lemma_last_slash(s, n - 1, a);
    }
}

/// Slides that have the same relationships are the same.
proof fn lemma_rels_differ(a: Seq<char>, b: Seq<char>)
    requires
        is_slide_name(a),
        is_slide_name(b),
        rels_of(a) == rels_of(b),
    ensures
        a == b,
{
    lemma_starts(a);
    lemma_starts(b);
    lemma_last_slash(a, a.len() as int, 10);
    lemma_last_slash(b, b.len() as int, 10);
    reveal_strlit("/_rels/");
    reveal_strlit(".rels");
    let p = after_last(a, '/', a.len() as int);
    let q = after_last(b, '/', b.len() as int);
    let r = rels_of(a);
    let m = a.len() + 11;
    assert(r.len() == a.len() - 1 + 7 + 5);
    assert(a.len() == b.len());
    let n = a.len() as int;
    assert forall|k: int| p <= k < n implies r[k + 6] == a[k] by {}
    assert forall|k: int| q <= k < n implies r[k + 6] == b[k] by {}
    assert(r[p + 5] == "/_rels/"@[6]);
    assert(r[q + 5] == "/_rels/"@[6]);
    if p < q {
        assert(r[(q - 1) + 6] == a[q - 1]);
        assert(a[q - 1] != '/');
    }
    if q < p {
        assert(r[(p - 1) + 6] == b[p - 1]);
        assert(b[p - 1] != '/');
    }
    assert forall|k: int| 0 <= k < n implies a[k] == b[k] by {
        if k < p - 1 {
            assert(r[k] == a[k]);
            assert(r[k] == b[k]);
        } else if k >= p {
            assert(r[k + 6] == a[k]);
            assert(r[k + 6] == b[k]);
        }
    }
    assert(a =~= b);
}

/// What is read of a slide stands in its place among the slides.
proof fn lemma_slides_read(archive: Seq<u8>, names: Seq<Seq<char>>, n: nat)
    requires
        n <= names.len(),
        forall|k: int| 0 <= k < n ==> zip_entry(archive, #[trigger] names[k]) is Ok,
    ensures
        slides_from(archive, names, n) is Ok,
        slides_from(archive, names, n)->Ok_0.len() == n,
        forall|k: int|
            0 <= k < n ==> #[trigger] slides_from(archive, names, n)->Ok_0[k] == (
                paragraphs(xml_items(zip_entry(archive, names[k])->Ok_0, true), drawing_tags()),
                slide_notes(archive, names[k]),
            ),
    decreases n,
{
    if n > 0 {
        lemma_slides_read(archive, names, (n - 1) as nat);
    }
}

proof fn lemma_slides_found(archive: Seq<u8>, names: Seq<Seq<char>>, n: nat, k: int)
    requires
        n <= names.len(),
        slides_from(archive, names, n) is Ok,
        0 <= k < n,
    ensures
        zip_entry(archive, names[k]) is Ok,
    decreases n,
{
    if k < n - 1 {
        lemma_slides_found(archive, names, (n - 1) as nat, k);
    }
}

/// A slide that is not the one whose notes are set, or is, reads as it did but for these
/// notes.
proof fn lemma_slide_after(
    parts: Seq<PartView>,
    n: u64,
    ls: Seq<Seq<char>>,
    before: Seq<u8>,
    after: Seq<u8>,
    j: int,
)
    requires
        holds_parts(before, parts),
        holds_parts(after, with_notes(parts, n, ls)),
        slide_parts(after) == slide_parts(before),
        are_plain_lines(ls),
        can_link(parts, n),
        has_own_notes(before, parts, n),
        all_notes_read_back(after),
        0 <= j < slide_parts(before).len(),
        is_slide_name(slide_parts(before)[j]),
    ensures
        zip_entry(after, slide_parts(before)[j]) == zip_entry(before, slide_parts(before)[j]),
        slide_notes(after, slide_parts(before)[j]) == if slide_parts(before)[j] == slide_part(n) {
            ls
        } else {
            slide_notes(before, slide_parts(before)[j])
        },
{
    let slide = slide_parts(before)[j];
    let idx = free_number(parts, "ppt/notesSlides/notesSlide"@);
    lemma_starts(slide);
    lemma_names_written(n, idx);
    assert(!notes_touch(parts, n, slide));
    notes_leave_the_rest(parts, n, ls, slide);
    lemma_entry_of_parts(before, parts, slide);
    lemma_entry_of_parts(after, with_notes(parts, n, ls), slide);
    if slide == slide_part(n) {
        assert(slide_parts(after)[j] == slide);
        assert(notes_read_back(after, slide));
        match linked_notes(parts, n) {
            Some(_) => replaced_notes_are_read(parts, n, ls, after),
            None => new_notes_are_read(parts, n, ls, after),
        }
    } else {
        lemma_last_slash(slide, slide.len() as int, 10);
        let rels = rels_of(slide);
        let p = after_last(slide, '/', slide.len() as int);
        assert(rels[0] == slide[0] && rels[4] == slide[4]);
        assert(is_slide_name(slide_part(n))) by {
            reveal_strlit("ppt/slides/slide");
            reveal_strlit(".xml");
            let own = slide_part(n);
            assert(own.subrange(0, 16) =~= "ppt/slides/slide"@);
            assert(own.subrange(own.len() - 4, own.len() as int) =~= ".xml"@);
        }
        lemma_slide_paths(n);
        if rels == slide_rels(n) {
            lemma_rels_differ(slide, slide_part(n));
        }
        assert(!notes_touch(parts, n, rels));
        other_slides_stay(parts, n, ls, before, after, slide);
    }
}

/// A presentation in which the notes of a slide were set is read as before, slide by slide,
/// but for the notes of that slide, which are the lines that were set.
pub proof fn set_notes_change_one_slide(
    parts: Seq<PartView>,
    n: u64,
    ls: Seq<Seq<char>>,
    before: Seq<u8>,
    after: Seq<u8>,
)
    requires
        parts.len() <= usize::MAX,
        holds_parts(before, parts),
        holds_parts(after, with_notes(parts, n, ls)),
        are_plain_lines(ls),
        can_link(parts, n),
        has_own_notes(before, parts, n),
        all_notes_read_back(after),
        pptx_slides(before) is Ok,
    ensures
        pptx_slides(after) is Ok,
        slide_parts(after) == slide_parts(before),
        pptx_slides(after)->Ok_0.len() == slide_parts(before).len(),
        pptx_slides(before)->Ok_0.len() == slide_parts(before).len(),
        forall|j: int|
            0 <= j < slide_parts(before).len() ==> (#[trigger] pptx_slides(after)->Ok_0[j]).0
                == pptx_slides(before)->Ok_0[j].0 && pptx_slides(after)->Ok_0[j].1 == if slide_parts(
                before,
            )[j] == slide_part(n) {
                ls
            } else {
                pptx_slides(before)->Ok_0[j].1
            },
{
    let names = slide_parts(before);
    lemma_slides_stay(parts, n, ls, before, after);
    lemma_sorted_are_slides(names_of(parts));
    assert forall|j: int| 0 <= j < names.len() implies zip_entry(after, #[trigger] names[j])
        == zip_entry(before, names[j]) && zip_entry(before, names[j]) is Ok && slide_notes(
        after,
        names[j],
    ) == if names[j] == slide_part(n) {
        ls
    } else {
        slide_notes(before, names[j])
    } by {
        lemma_slide_after(parts, n, ls, before, after, j);
        lemma_slides_found(before, names, names.len(), j);
    }
    lemma_slides_read(before, names, names.len());
    lemma_slides_read(after, names, names.len());
    let was = pptx_slides(before)->Ok_0;
    let now = pptx_slides(after)->Ok_0;
    assert(now == slides_from(after, names, names.len())->Ok_0);
    assert(was == slides_from(before, names, names.len())->Ok_0);
    assert forall|j: int| 0 <= j < names.len() implies (#[trigger] now[j]).0 == was[j].0
        && now[j].1 == if names[j] == slide_part(n) {
        ls
    } else {
        was[j].1
    } by {
        assert(zip_entry(after, names[j]) == zip_entry(before, names[j]));
        assert(was[j] == slides_from(before, names, names.len())->Ok_0[j]);
        assert(now[j] == slides_from(after, names, names.len())->Ok_0[j]);
    }
}

} // verus!
