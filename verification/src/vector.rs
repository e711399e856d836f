//! Charts as vector drawings: SVG markup, and a PDF page that shows one picture.

use crate::chart::{
    categories_of, custom_colors, kind_of, read_categories, read_side, require_series, set_palette,
    side_of, title_of,
};
use crate::container::{bytes_of_text, copy_bytes};
use crate::formats::{escaped, xml_escape};
use crate::paths::{ext_of, extension};
use crate::text::{copy_text, decimal, push_decimal, same};
use crate::value::{as_array, field, required_text, req_str, Value};
use vstd::prelude::*;
use vstd::utf8::encode_utf8;

verus! {

// ── markup ──────────────────────────────────────────────────────────────────

/// One mark of a drawing; coordinates are written as numbers.
pub enum Mark {
    Rule { x1: String, y1: String, x2: String, y2: String, stroke: String },
    Label { x: String, y: String, text: String },
    EndLabel { x: String, y: String, text: String },
    Bar { x: String, y: String, width: String, height: String, fill: String },
    Area { points: String, fill: String },
    Line { points: String, stroke: String },
    Dot { x: String, y: String, radius: String, fill: String },
    Slice { path: String, fill: String },
    Ribbon { path: String, fill: String },
}

/// An attribute in markup.
pub open spec fn attr(name: Seq<char>, value: Seq<char>) -> Seq<char> {
    " "@ + name + "=\""@ + value + "\""@
}

fn push_attr(out: &mut String, name: &str, value: &str)
    ensures
        final(out)@ == old(out)@ + attr(name@, value@),
{
    out.push_str(" ");
    out.push_str(name);
    out.push_str("=\"");
    out.push_str(value);
    out.push_str("\"");
    assert(out@ =~= old(out)@ + attr(name@, value@));
}

/// The markup of a mark.
pub open spec fn mark_text(m: Mark) -> Seq<char> {
    match m {
        Mark::Rule { x1, y1, x2, y2, stroke } => "<line"@ + attr("x1"@, x1@) + attr("y1"@, y1@)
            + attr("x2"@, x2@) + attr("y2"@, y2@) + attr("stroke"@, stroke@) + "/>"@,
        Mark::Label { x, y, text } => "<text"@ + attr("x"@, x@) + attr("y"@, y@) + attr(
            "font-size"@,
            "11"@,
        ) + attr("fill"@, "#1e1e1e"@) + ">"@ + escaped(text@) + "</text>"@,
        Mark::EndLabel { x, y, text } => "<text"@ + attr("x"@, x@) + attr("y"@, y@) + attr(
            "font-size"@,
            "11"@,
        ) + attr("text-anchor"@, "end"@) + attr("fill"@, "#1e1e1e"@) + ">"@ + escaped(text@)
            + "</text>"@,
        Mark::Bar { x, y, width, height, fill } => "<rect"@ + attr("x"@, x@) + attr("y"@, y@) + attr(
            "width"@,
            width@,
        ) + attr("height"@, height@) + attr("fill"@, fill@) + "/>"@,
        Mark::Area { points, fill } => "<polygon"@ + attr("points"@, points@) + attr(
            "fill"@,
            fill@,
        ) + attr("fill-opacity"@, "0.45"@) + "/>"@,
        Mark::Line { points, stroke } => "<polyline"@ + attr("points"@, points@) + attr(
            "fill"@,
            "none"@,
        ) + attr("stroke"@, stroke@) + attr("stroke-width"@, "2"@) + "/>"@,
        Mark::Dot { x, y, radius, fill } => "<circle"@ + attr("cx"@, x@) + attr("cy"@, y@) + attr(
            "r"@,
            radius@,
        ) + attr("fill"@, fill@) + "/>"@,
        Mark::Slice { path, fill } => "<path"@ + attr("d"@, path@) + attr("fill"@, fill@) + "/>"@,
        Mark::Ribbon { path, fill } => "<path"@ + attr("d"@, path@) + attr("fill"@, fill@) + attr(
            "fill-opacity"@,
            "0.45"@,
        ) + "/>"@,
    }
}

fn write_mark(m: &Mark) -> (r: String)
    ensures
        r@ == mark_text(*m),
{
    match m {
        Mark::Rule { x1, y1, x2, y2, stroke } => {
            let mut out = copy_text("<line");
            push_attr(&mut out, "x1", x1.as_str());
            push_attr(&mut out, "y1", y1.as_str());
            push_attr(&mut out, "x2", x2.as_str());
            push_attr(&mut out, "y2", y2.as_str());
            push_attr(&mut out, "stroke", stroke.as_str());
            out.push_str("/>");
            out
        },
        Mark::Label { x, y, text } => {
            let mut out = copy_text("<text");
            push_attr(&mut out, "x", x.as_str());
            push_attr(&mut out, "y", y.as_str());
            push_attr(&mut out, "font-size", "11");
            push_attr(&mut out, "fill", "#1e1e1e");
            out.push_str(">");
            out.push_str(xml_escape(text.as_str()).as_str());
            out.push_str("</text>");
            out
        },
        Mark::EndLabel { x, y, text } => {
            let mut out = copy_text("<text");
            push_attr(&mut out, "x", x.as_str());
            push_attr(&mut out, "y", y.as_str());
            push_attr(&mut out, "font-size", "11");
            push_attr(&mut out, "text-anchor", "end");
            push_attr(&mut out, "fill", "#1e1e1e");
            out.push_str(">");
            out.push_str(xml_escape(text.as_str()).as_str());
            out.push_str("</text>");
            out
        },
        Mark::Bar { x, y, width, height, fill } => {
            let mut out = copy_text("<rect");
            push_attr(&mut out, "x", x.as_str());
            push_attr(&mut out, "y", y.as_str());
            push_attr(&mut out, "width", width.as_str());
            push_attr(&mut out, "height", height.as_str());
            push_attr(&mut out, "fill", fill.as_str());
            out.push_str("/>");
            out
        },
        Mark::Area { points, fill } => {
            let mut out = copy_text("<polygon");
            push_attr(&mut out, "points", points.as_str());
            push_attr(&mut out, "fill", fill.as_str());
            push_attr(&mut out, "fill-opacity", "0.45");
            out.push_str("/>");
            out
        },
        Mark::Line { points, stroke } => {
            let mut out = copy_text("<polyline");
            push_attr(&mut out, "points", points.as_str());
            push_attr(&mut out, "fill", "none");
            push_attr(&mut out, "stroke", stroke.as_str());
            push_attr(&mut out, "stroke-width", "2");
            out.push_str("/>");
            out
        },
        Mark::Dot { x, y, radius, fill } => {
            let mut out = copy_text("<circle");
            push_attr(&mut out, "cx", x.as_str());
            push_attr(&mut out, "cy", y.as_str());
            push_attr(&mut out, "r", radius.as_str());
            push_attr(&mut out, "fill", fill.as_str());
            out.push_str("/>");
            out
        },
        Mark::Slice { path, fill } => {
            let mut out = copy_text("<path");
            push_attr(&mut out, "d", path.as_str());
            push_attr(&mut out, "fill", fill.as_str());
            out.push_str("/>");
            out
        },
        Mark::Ribbon { path, fill } => {
            let mut out = copy_text("<path");
            push_attr(&mut out, "d", path.as_str());
            push_attr(&mut out, "fill", fill.as_str());
            push_attr(&mut out, "fill-opacity", "0.45");
            out.push_str("/>");
            out
        },
    }
}

/// The markup of the first `n` marks.
pub open spec fn marks_text(marks: Seq<Mark>, n: nat) -> Seq<char>
    decreases n,
{
    if n == 0 || n > marks.len() {
        Seq::empty()
    } else {
        marks_text(marks, (n - 1) as nat) + mark_text(marks[n - 1])
    }
}

/// The markup of a title, which is none for an empty one.
pub open spec fn title_text(title: Seq<char>, middle: Seq<char>) -> Seq<char> {
    if title.len() == 0 {
        Seq::empty()
    } else {
        "<text"@ + attr("x"@, middle) + attr("y"@, "26"@) + attr("text-anchor"@, "middle"@) + attr(
            "font-size"@,
            "20"@,
        ) + attr("font-weight"@, "bold"@) + attr("fill"@, "#1e1e1e"@) + ">"@ + escaped(title)
            + "</text>"@
    }
}

/// The markup that a drawing starts with: its size, and a white ground.
pub open spec fn head_text(width: Seq<char>, height: Seq<char>) -> Seq<char> {
    "<svg"@ + attr("xmlns"@, "http://www.w3.org/2000/svg"@) + attr("width"@, width) + attr(
        "height"@,
        height,
    ) + attr("viewBox"@, "0 0 "@ + width + " "@ + height) + attr("font-family"@, "sans-serif"@)
        + ">"@ + "<rect"@ + attr("width"@, width) + attr("height"@, height) + attr(
        "fill"@,
        "#ffffff"@,
    ) + "/>"@
}

/// A whole drawing.
pub open spec fn drawing_text(
    width: Seq<char>,
    height: Seq<char>,
    title: Seq<char>,
    middle: Seq<char>,
    marks: Seq<Mark>,
) -> Seq<char> {
    head_text(width, height) + title_text(title, middle) + marks_text(marks, marks.len())
        + "</svg>"@
}

/// Writes a chart as SVG markup. Its texts stand in it as text, whatever they hold.
pub fn chart_to_svg(width: &str, height: &str, title: &str, middle: &str, marks: &Vec<Mark>) -> (r:
    String)
    ensures
        r@ == drawing_text(width@, height@, title@, middle@, marks@),
{
    let mut view = copy_text("0 0 ");
    view.push_str(width);
    view.push_str(" ");
    view.push_str(height);
    let mut out = copy_text("<svg");
    push_attr(&mut out, "xmlns", "http://www.w3.org/2000/svg");
    push_attr(&mut out, "width", width);
    push_attr(&mut out, "height", height);
    push_attr(&mut out, "viewBox", view.as_str());
    push_attr(&mut out, "font-family", "sans-serif");
    out.push_str(">");
    out.push_str("<rect");
    push_attr(&mut out, "width", width);
    push_attr(&mut out, "height", height);
    push_attr(&mut out, "fill", "#ffffff");
    out.push_str("/>");
    assert(view@ =~= "0 0 "@ + width@ + " "@ + height@);
    assert(out@ =~= head_text(width@, height@));
    if title.unicode_len() > 0 {
        let mut t = copy_text("<text");
        push_attr(&mut t, "x", middle);
        push_attr(&mut t, "y", "26");
        push_attr(&mut t, "text-anchor", "middle");
        push_attr(&mut t, "font-size", "20");
        push_attr(&mut t, "font-weight", "bold");
        push_attr(&mut t, "fill", "#1e1e1e");
        t.push_str(">");
        t.push_str(xml_escape(title).as_str());
        t.push_str("</text>");
        assert(t@ == title_text(title@, middle@));
        out.push_str(t.as_str());
    }
    let ghost start = head_text(width@, height@) + title_text(title@, middle@);
    assert(out@ =~= start);
    let mut i: usize = 0;
    assert(out@ =~= start + marks_text(marks@, 0));
    while i < marks.len()
        invariant
            i <= marks@.len(),
            out@ == start + marks_text(marks@, i as nat),
        decreases marks@.len() - i,
    {
        let m = write_mark(&marks[i]);
        out.push_str(m.as_str());
        i = i + 1;
        assert(out@ =~= start + marks_text(marks@, i as nat));
    }
    out.push_str("</svg>");
    assert(out@ =~= drawing_text(width@, height@, title@, middle@, marks@));
    out
}

// ── the plan of a vector drawing ────────────────────────────────────────────

/// A way to draw a chart in vectors.
#[derive(Clone, Copy, PartialEq, Eq, Structural)]
pub enum Outline {
    Sankey,
    Pie { hole: bool },
    Line { filled: bool },
    Scatter,
    Histogram,
    Bars { stacked: bool },
}

/// The drawing of a kind of chart; plain bars for a kind without one of its own.
pub open spec fn outline_of(kind: Seq<char>) -> Outline {
    if kind == "sankey"@ {
        Outline::Sankey
    } else if kind == "pie"@ {
        Outline::Pie { hole: false }
    } else if kind == "donut"@ || kind == "doughnut"@ {
        Outline::Pie { hole: true }
    } else if kind == "line"@ {
        Outline::Line { filled: false }
    } else if kind == "area"@ {
        Outline::Line { filled: true }
    } else if kind == "scatter"@ {
        Outline::Scatter
    } else if kind == "histogram"@ {
        Outline::Histogram
    } else if kind == "stacked"@ || kind == "stacked_bar"@ {
        Outline::Bars { stacked: true }
    } else {
        Outline::Bars { stacked: false }
    }
}

fn read_outline(kind: &str) -> (r: Outline)
    ensures
        r == outline_of(kind@),
{
    if same(kind, "sankey") {
        Outline::Sankey
    } else if same(kind, "pie") {
        Outline::Pie { hole: false }
    } else if same(kind, "donut") || same(kind, "doughnut") {
        Outline::Pie { hole: true }
    } else if same(kind, "line") {
        Outline::Line { filled: false }
    } else if same(kind, "area") {
        Outline::Line { filled: true }
    } else if same(kind, "scatter") {
        Outline::Scatter
    } else if same(kind, "histogram") {
        Outline::Histogram
    } else if same(kind, "stacked") || same(kind, "stacked_bar") {
        Outline::Bars { stacked: true }
    } else {
        Outline::Bars { stacked: false }
    }
}

/// All that is decided of a vector drawing before its coordinates are.
pub struct SvgPlan {
    pub outline: Outline,
    pub width: u64,
    pub height: u64,
    pub categories: Vec<String>,
    pub title: String,
    pub colors: Vec<String>,
}

/// Decides how a chart is drawn in vectors.
pub fn op_chart_svg(opts: &Value) -> (r: Result<SvgPlan, String>)
    ensures
        match r {
            Ok(p) => {
                let o = opts.deep_view();
                &&& p.outline == outline_of(kind_of(o))
                &&& p.outline is Sankey || as_array(field(o, "series"@)) is Some
                &&& p.width == side_of(o, "width"@, 800)
                &&& p.height == side_of(o, "height"@, 600)
                &&& p.categories.deep_view() == categories_of(o)
                &&& p.title@ == title_of(o)
                &&& p.colors.deep_view() == custom_colors(o)
            },
            Err(e) => !(outline_of(kind_of(opts.deep_view())) is Sankey) && as_array(
                field(opts.deep_view(), "series"@),
            ) is None && e@ == "missing series (expected array)"@,
        },
{
    let outline = match opts.text_at("type") {
        Some(kind) => read_outline(kind),
        None => read_outline("bar"),
    };
    let by_links = match outline {
        Outline::Sankey => true,
        _ => false,
    };
    if !by_links {
        match require_series(opts) {
            Ok(_) => {},
            Err(e) => {
                return Err(e);
            },
        }
    }
    let title = match opts.text_at("title") {
        Some(t) => copy_text(t),
        None => copy_text(""),
    };
    Ok(
        SvgPlan {
            outline,
            width: read_side(opts, "width", 800),
            height: read_side(opts, "height", 600),
            categories: read_categories(opts),
            title,
            colors: set_palette(opts),
        },
    )
}

/// What a chart is saved as.
pub enum ChartFile {
    Svg,
    Pdf,
    Raster(String),
}

/// Where a chart is saved, and as what.
pub fn op_chart_save(opts: &Value) -> (r: Result<(String, ChartFile), String>)
    ensures
        match r {
            Ok((path, file)) => required_text(opts.deep_view(), "path"@) == Ok::<
                Seq<char>,
                Seq<char>,
            >(path@) && match file {
                ChartFile::Svg => extension(path@) == "svg"@,
                ChartFile::Pdf => extension(path@) == "pdf"@,
                ChartFile::Raster(ext) => ext@ == extension(path@) && ext@ != "svg"@ && ext@
                    != "pdf"@,
            },
            Err(e) => required_text(opts.deep_view(), "path"@) == Err::<Seq<char>, Seq<char>>(e@),
        },
{
    match req_str(opts, "path") {
        Ok(path) => {
            let ext = ext_of(path);
            let file = if same(ext.as_str(), "svg") {
                ChartFile::Svg
            } else if same(ext.as_str(), "pdf") {
                ChartFile::Pdf
            } else {
                ChartFile::Raster(ext)
            };
            Ok((copy_text(path), file))
        },
        Err(e) => Err(e),
    }
}

// ── a page with a picture ───────────────────────────────────────────────────

/// Zeros before a text, up to ten characters.
pub open spec fn ten_digits(s: Seq<char>) -> Seq<char>
    decreases 10 - s.len(),
{
    if s.len() >= 10 {
        s
    } else {
        ten_digits(seq!['0'] + s)
    }
}

fn push_ten_digits(out: &mut String, n: u64)
    ensures
        final(out)@ == old(out)@ + ten_digits(decimal(n as nat)),
{
    let mut s = String::new();
    push_decimal(&mut s, n);
    assert(s@ =~= decimal(n as nat));
    while s.as_str().unicode_len() < 10
        invariant
            ten_digits(s@) == ten_digits(decimal(n as nat)),
        decreases 10 - s@.len(),
    {
        proof {
            reveal_strlit("0");
            assert("0"@ =~= seq!['0']);
        }
        s = crate::text::concat2("0", s.as_str());
    }
    out.push_str(s.as_str());
}

/// The page: as wide as a sheet of paper, as high as the picture asks for.
pub open spec fn page_body(page_height: Seq<char>) -> Seq<char> {
    "<< /Type /Page /Parent 2 0 R /MediaBox [0 0 595 "@ + page_height
        + "] /Resources << /XObject << /Im0 4 0 R >> >> /Contents 5 0 R >>"@
}

/// What stands before the bytes of the picture.
pub open spec fn picture_head(width: u32, height: u32, size: nat) -> Seq<char> {
    "<< /Type /XObject /Subtype /Image /Width "@ + decimal(width as nat) + " /Height "@ + decimal(
        height as nat,
    ) + " /ColorSpace /DeviceRGB /BitsPerComponent 8 /Filter /DCTDecode /Length "@ + decimal(size)
        + " >>\nstream\n"@
}

/// The command that shows the picture.
pub open spec fn page_content(page_height: Seq<char>) -> Seq<char> {
    "q 595 0 0 "@ + page_height + " 0 0 cm /Im0 Do Q"@
}

/// The command with what stands round it.
pub open spec fn content_body(page_height: Seq<char>) -> Seq<char> {
    "<< /Length "@ + decimal(encode_utf8(page_content(page_height)).len()) + " >>\nstream\n"@
        + page_content(page_height) + "\nendstream"@
}

/// The objects of the file.
pub open spec fn file_objects(
    jpeg: Seq<u8>,
    width: u32,
    height: u32,
    page_height: Seq<char>,
) -> Seq<Seq<u8>> {
    seq![
        encode_utf8("<< /Type /Catalog /Pages 2 0 R >>"@),
        encode_utf8("<< /Type /Pages /Kids [3 0 R] /Count 1 >>"@),
        encode_utf8(page_body(page_height)),
        encode_utf8(picture_head(width, height, jpeg.len())) + jpeg + encode_utf8("\nendstream"@),
        encode_utf8(content_body(page_height)),
    ]
}

/// The line that object `i` starts with.
pub open spec fn object_head(i: int) -> Seq<u8> {
    encode_utf8(decimal((i + 1) as nat) + " 0 obj\n"@)
}

/// The file up to the end of the first `n` objects.
pub open spec fn file_upto(objects: Seq<Seq<u8>>, n: nat) -> Seq<u8>
    decreases n,
{
    if n == 0 || n > objects.len() {
        encode_utf8("%PDF-1.5\n"@)
    } else {
        file_upto(objects, (n - 1) as nat) + object_head(n - 1) + objects[n - 1] + encode_utf8(
            "\nendobj\n"@,
        )
    }
}

/// Where object `i` starts.
pub open spec fn object_start(objects: Seq<Seq<u8>>, i: int) -> nat {
    file_upto(objects, i as nat).len()
}

/// The lines of the table for the first `n` objects.
pub open spec fn table_lines(objects: Seq<Seq<u8>>, n: nat) -> Seq<char>
    decreases n,
{
    if n == 0 || n > objects.len() {
        Seq::empty()
    } else {
        table_lines(objects, (n - 1) as nat) + ten_digits(decimal(object_start(objects, n - 1)))
            + " 00000 n \n"@
    }
}

/// The table of the objects, and where it starts.
pub open spec fn file_tail(objects: Seq<Seq<u8>>) -> Seq<char> {
    "xref\n0 "@ + decimal(objects.len() + 1) + "\n0000000000 65535 f \n"@ + table_lines(
        objects,
        objects.len(),
    ) + "trailer\n<< /Size "@ + decimal(objects.len() + 1) + " /Root 1 0 R >>\nstartxref\n"@
        + decimal(file_upto(objects, objects.len()).len()) + "\n%%EOF"@
}

/// A file of objects.
pub open spec fn file_of(objects: Seq<Seq<u8>>) -> Seq<u8> {
    file_upto(objects, objects.len()) + encode_utf8(file_tail(objects))
}

fn push_bytes(out: &mut Vec<u8>, more: Vec<u8>)
    ensures
        final(out)@ == old(out)@ + more@,
{
    let mut tail = more;
    out.append(&mut tail);
}

fn write_file(objects: &Vec<Vec<u8>>) -> (r: Vec<u8>)
    requires
        objects@.len() < 1000,
    ensures
        r@ == file_of(objects.deep_view()),
{
    let ghost ov = objects.deep_view();
    let total: usize = objects.len();
    assert(ov.len() == total);
    let mut out = bytes_of_text("%PDF-1.5\n");
    let mut lines = String::new();
    let mut i: usize = 0;
    while i < total
        invariant
            i <= total,
            total == objects@.len(),
            total < 1000,
            ov == objects.deep_view(),
            ov.len() == total,
            out@ == file_upto(ov, i as nat),
            lines@ == table_lines(ov, i as nat),
        decreases total - i,
    {
        let ghost was = lines@;
        assert(ov[i as int] == objects@[i as int].deep_view());
        assert(objects@[i as int].deep_view() =~= objects@[i as int]@);
        push_ten_digits(&mut lines, out.len() as u64);
        lines.push_str(" 00000 n \n");
        let mut head = String::new();
        push_decimal(&mut head, i as u64 + 1);
        head.push_str(" 0 obj\n");
        assert(head@ =~= decimal((i + 1) as nat) + " 0 obj\n"@);
        push_bytes(&mut out, bytes_of_text(head.as_str()));
        push_bytes(&mut out, copy_bytes(objects[i].as_slice()));
        push_bytes(&mut out, bytes_of_text("\nendobj\n"));
        i = i + 1;
        assert(out@ =~= file_upto(ov, i as nat));
        assert(lines@ =~= table_lines(ov, i as nat));
    }
    let mut tail = copy_text("xref\n0 ");
    push_decimal(&mut tail, total as u64 + 1);
    tail.push_str("\n0000000000 65535 f \n");
    tail.push_str(lines.as_str());
    tail.push_str("trailer\n<< /Size ");
    push_decimal(&mut tail, total as u64 + 1);
    tail.push_str(" /Root 1 0 R >>\nstartxref\n");
    push_decimal(&mut tail, out.len() as u64);
    tail.push_str("\n%%EOF");
    assert(tail@ =~= file_tail(ov));
    push_bytes(&mut out, bytes_of_text(tail.as_str()));
    out
}

/// A PDF file of one page that shows a JPEG picture. The page is 595 points wide;
/// `page_height` is its height in points.
pub fn pdf_with_jpeg(jpeg: &Vec<u8>, width: u32, height: u32, page_height: &str) -> (r: Vec<u8>)
    ensures
        r@ == file_of(file_objects(jpeg@, width, height, page_height@)),
{
    let mut page = copy_text("<< /Type /Page /Parent 2 0 R /MediaBox [0 0 595 ");
    page.push_str(page_height);
    page.push_str("] /Resources << /XObject << /Im0 4 0 R >> >> /Contents 5 0 R >>");
    assert(page@ =~= page_body(page_height@));
    let mut head = copy_text("<< /Type /XObject /Subtype /Image /Width ");
    push_decimal(&mut head, width as u64);
    head.push_str(" /Height ");
    push_decimal(&mut head, height as u64);
    head.push_str(" /ColorSpace /DeviceRGB /BitsPerComponent 8 /Filter /DCTDecode /Length ");
    push_decimal(&mut head, jpeg.len() as u64);
    head.push_str(" >>\nstream\n");
    assert(head@ =~= picture_head(width, height, jpeg@.len()));
    let mut picture = bytes_of_text(head.as_str());
    push_bytes(&mut picture, copy_bytes(jpeg.as_slice()));
    push_bytes(&mut picture, bytes_of_text("\nendstream"));
    let mut content = copy_text("q 595 0 0 ");
    content.push_str(page_height);
    content.push_str(" 0 0 cm /Im0 Do Q");
    assert(content@ =~= page_content(page_height@));
    let mut body = copy_text("<< /Length ");
    push_decimal(&mut body, bytes_of_text(content.as_str()).len() as u64);
    body.push_str(" >>\nstream\n");
    body.push_str(content.as_str());
    body.push_str("\nendstream");
    assert(body@ =~= content_body(page_height@));
    let mut objects: Vec<Vec<u8>> = Vec::new();
    objects.push(bytes_of_text("<< /Type /Catalog /Pages 2 0 R >>"));
    objects.push(bytes_of_text("<< /Type /Pages /Kids [3 0 R] /Count 1 >>"));
    objects.push(bytes_of_text(page.as_str()));
    objects.push(picture);
    objects.push(bytes_of_text(body.as_str()));
    let ghost want = file_objects(jpeg@, width, height, page_height@);
    assert(objects.deep_view().len() == 5);
    assert forall|i: int| 0 <= i < 5 implies objects.deep_view()[i] == want[i] by {
        assert(objects.deep_view()[i] =~= objects@[i]@);
    }
    assert(objects.deep_view() =~= want);
    write_file(&objects)
}

proof fn lemma_prefix(objects: Seq<Seq<u8>>, i: nat, n: nat)
    requires
        i <= n <= objects.len(),
    ensures
        file_upto(objects, i).len() <= file_upto(objects, n).len(),
        file_upto(objects, n).take(file_upto(objects, i).len() as int) == file_upto(objects, i),
    decreases n,
{
    if i < n {
        lemma_prefix(objects, i, (n - 1) as nat);
        let before = file_upto(objects, (n - 1) as nat);
        let whole = file_upto(objects, n);
        assert(whole.take(before.len() as int) =~= before);
        assert(whole.take(file_upto(objects, i).len() as int) =~= before.take(
            file_upto(objects, i).len() as int,
        ));
    } else {
        assert(file_upto(objects, n).take(file_upto(objects, n).len() as int) =~= file_upto(
            objects,
            n,
        ));
    }
}

/// The table of a file tells the truth: where it says that an object starts, that
/// object's first line stands.
pub proof fn table_points_at_objects(objects: Seq<Seq<u8>>, i: int)
    requires
        0 <= i < objects.len(),
    ensures
        object_start(objects, i) + object_head(i).len() <= file_of(objects).len(),
        file_of(objects).subrange(
            object_start(objects, i) as int,
            (object_start(objects, i) + object_head(i).len()) as int,
        ) == object_head(i),
{
    let upto = file_upto(objects, (i + 1) as nat);
    let start = object_start(objects, i) as int;
    lemma_prefix(objects, (i + 1) as nat, objects.len());
    let all = file_upto(objects, objects.len());
    assert(upto.subrange(start, start + object_head(i).len()) =~= object_head(i));
    assert(all.take(upto.len() as int).subrange(start, start + object_head(i).len())
        =~= file_of(objects).subrange(start, start + object_head(i).len()));
}

} // verus!
