//! Documents written as HTML, Markdown and RTF, and text documents read as
//! paragraphs.

use crate::deep::push_deep;
use crate::formats::{escaped, rtf_escape, rtf_escaped, xml_escape};
use crate::render::{make_md_text, md_text};
use crate::text::{
    char_is_alnum, chars_of, concat3, copy_text, decimal, is_alnum, join, join_texts, lines,
    push_decimal, replace_text, replaced, same, text_lines, trim, trim_text,
};
use crate::value::{
    as_array, as_text, as_u64, cell_text, cell_to_string, field, flag_at, opt_flag, Json, Value,
};
use vstd::prelude::*;

verus! {

// ── what a block holds ──────────────────────────────────────────────────────

/// The texts of the first `n` runs that have one, one after the other.
pub open spec fn runs_text(runs: Seq<Json>, n: nat) -> Seq<char>
    decreases n,
{
    if n == 0 || n > runs.len() {
        Seq::empty()
    } else {
        let before = runs_text(runs, (n - 1) as nat);
        match as_text(field(runs[n - 1], "text"@)) {
            Some(t) => before + t,
            None => before,
        }
    }
}

/// The plain text of a block: that of its runs, or its own text, or nothing for
/// any other object; a bare cell stands for itself.
pub open spec fn plain_text(b: Json) -> Seq<char> {
    match as_array(field(b, "runs"@)) {
        Some(runs) => runs_text(runs, runs.len()),
        None => match as_text(field(b, "text"@)) {
            Some(t) => t,
            None => if b is Object {
                Seq::empty()
            } else {
                cell_text(b)
            },
        },
    }
}

pub fn block_plain_text(b: &Value) -> (r: String)
    ensures
        r@ == plain_text(b.deep_view()),
{
    match b.array_at("runs") {
        Some(runs) => {
            let mut out = String::new();
            let mut i: usize = 0;
            while i < runs.len()
                invariant
                    i <= runs@.len(),
                    out@ == runs_text(runs.deep_view(), i as nat),
                decreases runs@.len() - i,
            {
                assert(runs.deep_view()[i as int] == runs@[i as int].deep_view());
                match runs[i].text_at("text") {
                    Some(t) => {
                        out.push_str(t);
                    },
                    None => {},
                }
                i = i + 1;
            }
            out
        },
        None => match b.text_at("text") {
            Some(t) => copy_text(t),
            None => if b.is_object() {
                String::new()
            } else {
                cell_to_string(b)
            },
        },
    }
}

/// A run: its text, and whether it is bold and italic.
pub open spec fn run_of(v: Json) -> (Seq<char>, bool, bool) {
    (
        match as_text(field(v, "text"@)) {
            Some(t) => t,
            None => Seq::empty(),
        },
        flag_at(v, "bold"@) == Some(true),
        flag_at(v, "italic"@) == Some(true),
    )
}

/// The runs of a block; a block without a list of runs is one run itself.
pub open spec fn runs_of(b: Json) -> Seq<(Seq<char>, bool, bool)> {
    match as_array(field(b, "runs"@)) {
        Some(runs) => Seq::new(runs.len(), |i: int| run_of(runs[i])),
        None => seq![run_of(b)],
    }
}

fn one_run(v: &Value) -> (r: (String, bool, bool))
    ensures
        r.deep_view() == run_of(v.deep_view()),
{
    let text = match v.text_at("text") {
        Some(t) => copy_text(t),
        None => String::new(),
    };
    let bold = match opt_flag(v, "bold") {
        Some(b) => b,
        None => false,
    };
    let italic = match opt_flag(v, "italic") {
        Some(b) => b,
        None => false,
    };
    (text, bold, italic)
}

pub fn block_runs(b: &Value) -> (r: Vec<(String, bool, bool)>)
    ensures
        r.deep_view() == runs_of(b.deep_view()),
{
    let mut out: Vec<(String, bool, bool)> = Vec::new();
    match b.array_at("runs") {
        Some(runs) => {
            let ghost want = Seq::new(
                runs.deep_view().len(),
                |i: int| run_of(runs.deep_view()[i]),
            );
            let mut i: usize = 0;
            while i < runs.len()
                invariant
                    i <= runs@.len(),
                    want == Seq::new(
                        runs.deep_view().len(),
                        |i: int| run_of(runs.deep_view()[i]),
                    ),
                    out.deep_view() == want.take(i as int),
                decreases runs@.len() - i,
            {
                assert(runs.deep_view()[i as int] == runs@[i as int].deep_view());
                push_deep(&mut out, one_run(&runs[i]));
                i = i + 1;
                assert(out.deep_view() =~= want.take(i as int));
            }
            assert(want.take(i as int) =~= want);
        },
        None => {
            push_deep(&mut out, one_run(b));
            assert(out.deep_view() =~= runs_of(b.deep_view()));
        },
    }
    out
}

/// The kind of a block; `para` where it names none.
pub open spec fn kind_of(b: Json) -> Seq<char> {
    match as_text(field(b, "kind"@)) {
        Some(k) => k,
        None => "para"@,
    }
}

pub fn block_kind(b: &Value) -> (r: &str)
    ensures
        r@ == kind_of(b.deep_view()),
{
    match b.text_at("kind") {
        Some(k) => k,
        None => "para",
    }
}

/// The level of a heading block, brought into 1 to 6; 1 where it names none.
pub open spec fn level_1_6(b: Json) -> u64 {
    match as_u64(field(b, "level"@)) {
        Some(v) => if v < 1 {
            1
        } else if v > 6 {
            6
        } else {
            v
        },
        None => 1,
    }
}

fn block_level(b: &Value) -> (r: u64)
    ensures
        r == level_1_6(b.deep_view()),
        1 <= r <= 6,
{
    match b.u64_at("level") {
        Some(v) => if v < 1 {
            1
        } else if v > 6 {
            6
        } else {
            v
        },
        None => 1,
    }
}

// ── HTML ────────────────────────────────────────────────────────────────────

/// A text inside an element.
pub open spec fn wrapped(open: Seq<char>, t: Seq<char>, close: Seq<char>) -> Seq<char> {
    open + t + close
}

pub open spec fn html_run(run: (Seq<char>, bool, bool)) -> Seq<char> {
    let t = escaped(run.0);
    let b = if run.1 {
        wrapped("<b>"@, t, "</b>"@)
    } else {
        t
    };
    if run.2 {
        wrapped("<i>"@, b, "</i>"@)
    } else {
        b
    }
}

pub open spec fn html_runs(runs: Seq<(Seq<char>, bool, bool)>, n: nat) -> Seq<char>
    decreases n,
{
    if n == 0 || n > runs.len() {
        Seq::empty()
    } else {
        html_runs(runs, (n - 1) as nat) + html_run(runs[n - 1])
    }
}

pub open spec fn html_tds(cells: Seq<Json>, n: nat) -> Seq<char>
    decreases n,
{
    if n == 0 || n > cells.len() {
        Seq::empty()
    } else {
        html_tds(cells, (n - 1) as nat) + wrapped(
            "<td>"@,
            escaped(plain_text(cells[n - 1])),
            "</td>"@,
        )
    }
}

pub open spec fn html_trs(rows: Seq<Json>, n: nat) -> Seq<char>
    decreases n,
{
    if n == 0 || n > rows.len() {
        Seq::empty()
    } else {
        html_trs(rows, (n - 1) as nat) + wrapped(
            "<tr>"@,
            match as_array(Some(rows[n - 1])) {
                Some(cells) => html_tds(cells, cells.len()),
                None => Seq::empty(),
            },
            "</tr>\n"@,
        )
    }
}

/// A block as HTML.
pub open spec fn html_block(b: Json) -> Seq<char> {
    let k = kind_of(b);
    if k == "heading"@ {
        "<h"@ + decimal(level_1_6(b) as nat) + ">"@ + escaped(plain_text(b)) + "</h"@ + decimal(
            level_1_6(b) as nat,
        ) + ">\n"@
    } else if k == "pagebreak"@ {
        "<hr>\n"@
    } else if k == "image"@ {
        match as_text(field(b, "path"@)) {
            Some(p) => wrapped("<img src=\""@, escaped(p), "\">\n"@),
            None => Seq::empty(),
        }
    } else if k == "table"@ {
        wrapped(
            "<table border=\"1\">\n"@,
            match as_array(field(b, "rows"@)) {
                Some(rows) => html_trs(rows, rows.len()),
                None => Seq::empty(),
            },
            "</table>\n"@,
        )
    } else {
        wrapped("<p>"@, html_runs(runs_of(b), runs_of(b).len()), "</p>\n"@)
    }
}

pub open spec fn html_body(blocks: Seq<Json>, n: nat) -> Seq<char>
    decreases n,
{
    if n == 0 || n > blocks.len() {
        Seq::empty()
    } else {
        html_body(blocks, (n - 1) as nat) + html_block(blocks[n - 1])
    }
}

/// Blocks as an HTML document.
pub open spec fn html_doc(blocks: Seq<Json>) -> Seq<char> {
    "<!DOCTYPE html>\n<html lang=\"en\">\n<head><meta charset=\"utf-8\"></head>\n<body>\n"@
        + html_body(blocks, blocks.len()) + "</body>\n</html>\n"@
}

fn run_to_html(run: &(String, bool, bool)) -> (r: String)
    ensures
        r@ == html_run(run.deep_view()),
{
    let mut t = xml_escape(run.0.as_str());
    if run.1 {
        t = concat3("<b>", t.as_str(), "</b>");
    }
    if run.2 {
        t = concat3("<i>", t.as_str(), "</i>");
    }
    t
}

fn push_html_trs(out: &mut String, rows: &Vec<Value>)
    ensures
        final(out)@ == old(out)@ + html_trs(rows.deep_view(), rows@.len()),
{
    let ghost before = out@;
    let mut i: usize = 0;
    assert(out@ =~= before + html_trs(rows.deep_view(), 0));
    while i < rows.len()
        invariant
            i <= rows@.len(),
            out@ == before + html_trs(rows.deep_view(), i as nat),
        decreases rows@.len() - i,
    {
        assert(rows.deep_view()[i as int] == rows@[i as int].deep_view());
        let ghost start = out@;
        out.push_str("<tr>");
        match rows[i].as_array() {
            Some(cells) => {
                let mut c: usize = 0;
                assert(out@ =~= start + ("<tr>"@ + html_tds(cells.deep_view(), 0)));
                while c < cells.len()
                    invariant
                        c <= cells@.len(),
                        out@ == start + ("<tr>"@ + html_tds(cells.deep_view(), c as nat)),
                    decreases cells@.len() - c,
                {
                    assert(cells.deep_view()[c as int] == cells@[c as int].deep_view());
                    out.push_str("<td>");
                    out.push_str(xml_escape(block_plain_text(&cells[c]).as_str()).as_str());
                    out.push_str("</td>");
                    c = c + 1;
                    assert(out@ =~= start + ("<tr>"@ + html_tds(cells.deep_view(), c as nat)));
                }
            },
            None => {
                assert(out@ =~= start + ("<tr>"@ + Seq::<char>::empty()));
            },
        }
        out.push_str("</tr>\n");
        i = i + 1;
        assert(out@ =~= before + html_trs(rows.deep_view(), i as nat));
    }
}

fn push_html_block(out: &mut String, b: &Value)
    ensures
        final(out)@ == old(out)@ + html_block(b.deep_view()),
{
    let ghost before = out@;
    let k = block_kind(b);
    if same(k, "heading") {
        let lv = block_level(b);
        out.push_str("<h");
        push_decimal(out, lv);
        out.push_str(">");
        out.push_str(xml_escape(block_plain_text(b).as_str()).as_str());
        out.push_str("</h");
        push_decimal(out, lv);
        out.push_str(">\n");
    } else if same(k, "pagebreak") {
        out.push_str("<hr>\n");
    } else if same(k, "image") {
        match b.text_at("path") {
            Some(p) => {
                out.push_str("<img src=\"");
                out.push_str(xml_escape(p).as_str());
                out.push_str("\">\n");
            },
            None => {},
        }
    } else if same(k, "table") {
        out.push_str("<table border=\"1\">\n");
        match b.array_at("rows") {
            Some(rows) => {
                push_html_trs(out, rows);
            },
            None => {},
        }
        out.push_str("</table>\n");
    } else {
        out.push_str("<p>");
        let runs = block_runs(b);
        let ghost rv = runs_of(b.deep_view());
        let mut i: usize = 0;
        assert(out@ =~= before + ("<p>"@ + html_runs(rv, 0)));
        while i < runs.len()
            invariant
                i <= runs@.len(),
                rv == runs.deep_view(),
                out@ == before + ("<p>"@ + html_runs(rv, i as nat)),
            decreases runs@.len() - i,
        {
            assert(rv[i as int] == runs@[i as int].deep_view());
            out.push_str(run_to_html(&runs[i]).as_str());
            i = i + 1;
            assert(out@ =~= before + ("<p>"@ + html_runs(rv, i as nat)));
        }
        out.push_str("</p>\n");
    }
    assert(out@ =~= before + html_block(b.deep_view()));
}

/// Blocks as an HTML document.
pub fn write_doc_html(blocks: &Vec<Value>) -> (r: String)
    ensures
        r@ == html_doc(blocks.deep_view()),
{
    let ghost head =
        "<!DOCTYPE html>\n<html lang=\"en\">\n<head><meta charset=\"utf-8\"></head>\n<body>\n"@;
    let mut s = copy_text(
        "<!DOCTYPE html>\n<html lang=\"en\">\n<head><meta charset=\"utf-8\"></head>\n<body>\n",
    );
    let mut i: usize = 0;
    assert(s@ =~= head + html_body(blocks.deep_view(), 0));
    while i < blocks.len()
        invariant
            i <= blocks@.len(),
            s@ == head + html_body(blocks.deep_view(), i as nat),
        decreases blocks@.len() - i,
    {
        assert(blocks.deep_view()[i as int] == blocks@[i as int].deep_view());
        push_html_block(&mut s, &blocks[i]);
        i = i + 1;
        assert(s@ =~= head + html_body(blocks.deep_view(), i as nat));
    }
    s.push_str("</body>\n</html>\n");
    s
}

// ── Markdown ────────────────────────────────────────────────────────────────

pub open spec fn md_run(run: (Seq<char>, bool, bool)) -> Seq<char> {
    let b = if run.1 {
        wrapped("**"@, run.0, "**"@)
    } else {
        run.0
    };
    if run.2 {
        wrapped("_"@, b, "_"@)
    } else {
        b
    }
}

pub open spec fn md_runs(runs: Seq<(Seq<char>, bool, bool)>, n: nat) -> Seq<char>
    decreases n,
{
    if n == 0 || n > runs.len() {
        Seq::empty()
    } else {
        md_runs(runs, (n - 1) as nat) + md_run(runs[n - 1])
    }
}

/// `n` copies of a text.
pub open spec fn repeated(t: Seq<char>, n: nat) -> Seq<char>
    decreases n,
{
    if n == 0 {
        Seq::empty()
    } else {
        repeated(t, (n - 1) as nat) + t
    }
}

pub open spec fn plain_texts(cells: Seq<Json>) -> Seq<Seq<char>> {
    Seq::new(cells.len(), |i: int| plain_text(cells[i]))
}

/// The texts of cells as a pipe table shows them.
pub open spec fn piped_texts(cells: Seq<Json>) -> Seq<Seq<char>> {
    Seq::new(cells.len(), |i: int| md_text(plain_text(cells[i])))
}

/// The first `n` rows of a table; only rows that are arrays make lines, and the
/// separator follows the first row where it is one.
pub open spec fn md_table_rows(rows: Seq<Json>, n: nat) -> Seq<char>
    decreases n,
{
    if n == 0 || n > rows.len() {
        Seq::empty()
    } else {
        md_table_rows(rows, (n - 1) as nat) + match as_array(Some(rows[n - 1])) {
            Some(cells) => wrapped("| "@, join(piped_texts(cells), " | "@), " |\n"@) + (if n == 1 {
                wrapped("|"@, repeated(" --- |"@, cells.len()), "|\n"@)
            } else {
                Seq::empty()
            }),
            None => Seq::empty(),
        }
    }
}

/// A block as Markdown.
pub open spec fn md_block(b: Json) -> Seq<char> {
    let k = kind_of(b);
    if k == "heading"@ {
        repeated("#"@, level_1_6(b) as nat) + " "@ + plain_text(b) + "\n\n"@
    } else if k == "pagebreak"@ {
        "---\n\n"@
    } else if k == "image"@ {
        match as_text(field(b, "path"@)) {
            Some(p) => wrapped("![]("@, p, ")\n\n"@),
            None => Seq::empty(),
        }
    } else if k == "table"@ {
        match as_array(field(b, "rows"@)) {
            Some(rows) => md_table_rows(rows, rows.len()) + "\n"@,
            None => Seq::empty(),
        }
    } else {
        md_runs(runs_of(b), runs_of(b).len()) + "\n\n"@
    }
}

/// The first `n` blocks as Markdown.
pub open spec fn md_doc(blocks: Seq<Json>, n: nat) -> Seq<char>
    decreases n,
{
    if n == 0 || n > blocks.len() {
        Seq::empty()
    } else {
        md_doc(blocks, (n - 1) as nat) + md_block(blocks[n - 1])
    }
}

pub fn push_repeated(out: &mut String, t: &str, n: usize)
    ensures
        final(out)@ == old(out)@ + repeated(t@, n as nat),
{
    let ghost before = out@;
    let mut i: usize = 0;
    assert(out@ =~= before + repeated(t@, 0));
    while i < n
        invariant
            i <= n,
            out@ == before + repeated(t@, i as nat),
        decreases n - i,
    {
        out.push_str(t);
        i = i + 1;
        assert(out@ =~= before + repeated(t@, i as nat));
    }
}

fn make_piped_texts(cells: &Vec<Value>) -> (r: Vec<String>)
    ensures
        r.deep_view() == piped_texts(cells.deep_view()),
{
    let mut out: Vec<String> = Vec::new();
    let mut i: usize = 0;
    while i < cells.len()
        invariant
            i <= cells@.len(),
            out.deep_view() == piped_texts(cells.deep_view()).take(i as int),
        decreases cells@.len() - i,
    {
        assert(cells.deep_view()[i as int] == cells@[i as int].deep_view());
        push_deep(&mut out, make_md_text(block_plain_text(&cells[i]).as_str()));
        i = i + 1;
        assert(out.deep_view() =~= piped_texts(cells.deep_view()).take(i as int));
    }
    assert(out.deep_view() =~= piped_texts(cells.deep_view()));
    out
}

fn push_md_rows(out: &mut String, rows: &Vec<Value>)
    ensures
        final(out)@ == old(out)@ + md_table_rows(rows.deep_view(), rows@.len()),
{
    let ghost before = out@;
    let mut i: usize = 0;
    assert(out@ =~= before + md_table_rows(rows.deep_view(), 0));
    while i < rows.len()
        invariant
            i <= rows@.len(),
            out@ == before + md_table_rows(rows.deep_view(), i as nat),
        decreases rows@.len() - i,
    {
        assert(rows.deep_view()[i as int] == rows@[i as int].deep_view());
        match rows[i].as_array() {
            Some(cells) => {
                let line = make_piped_texts(cells);
                out.push_str("| ");
                out.push_str(join_texts(&line, " | ").as_str());
                out.push_str(" |\n");
                if i == 0 {
                    out.push_str("|");
                    push_repeated(out, " --- |", cells.len());
                    out.push_str("|\n");
                }
            },
            None => {},
        }
        i = i + 1;
        assert(out@ =~= before + md_table_rows(rows.deep_view(), i as nat));
    }
}

fn push_md_block(out: &mut String, b: &Value)
    ensures
        final(out)@ == old(out)@ + md_block(b.deep_view()),
{
    let ghost before = out@;
    let k = block_kind(b);
    if same(k, "heading") {
        let lv = block_level(b);
        push_repeated(out, "#", lv as usize);
        out.push_str(" ");
        out.push_str(block_plain_text(b).as_str());
        out.push_str("\n\n");
    } else if same(k, "pagebreak") {
        out.push_str("---\n\n");
    } else if same(k, "image") {
        match b.text_at("path") {
            Some(p) => {
                out.push_str("![](");
                out.push_str(p);
                out.push_str(")\n\n");
            },
            None => {},
        }
    } else if same(k, "table") {
        match b.array_at("rows") {
            Some(rows) => {
                push_md_rows(out, rows);
                out.push_str("\n");
            },
            None => {},
        }
    } else {
        let runs = block_runs(b);
        let ghost rv = runs_of(b.deep_view());
        let mut i: usize = 0;
        assert(out@ =~= before + md_runs(rv, 0));
        while i < runs.len()
            invariant
                i <= runs@.len(),
                rv == runs.deep_view(),
                out@ == before + md_runs(rv, i as nat),
            decreases runs@.len() - i,
        {
            assert(rv[i as int] == runs@[i as int].deep_view());
            let mut t = runs[i].0.clone();
            if runs[i].1 {
                t = concat3("**", t.as_str(), "**");
            }
            if runs[i].2 {
                t = concat3("_", t.as_str(), "_");
            }
            out.push_str(t.as_str());
            i = i + 1;
            assert(out@ =~= before + md_runs(rv, i as nat));
        }
        out.push_str("\n\n");
    }
    assert(out@ =~= before + md_block(b.deep_view()));
}

/// Blocks as a Markdown document.
pub fn write_doc_md(blocks: &Vec<Value>) -> (r: String)
    ensures
        r@ == md_doc(blocks.deep_view(), blocks@.len()),
{
    let mut s = String::new();
    let mut i: usize = 0;
    while i < blocks.len()
        invariant
            i <= blocks@.len(),
            s@ == md_doc(blocks.deep_view(), i as nat),
        decreases blocks@.len() - i,
    {
        assert(blocks.deep_view()[i as int] == blocks@[i as int].deep_view());
        push_md_block(&mut s, &blocks[i]);
        i = i + 1;
    }
    s
}

// ── RTF ─────────────────────────────────────────────────────────────────────

pub open spec fn rtf_run(run: (Seq<char>, bool, bool)) -> Seq<char> {
    "{"@ + (if run.1 {
        "\\b "@
    } else {
        Seq::empty()
    }) + (if run.2 {
        "\\i "@
    } else {
        Seq::empty()
    }) + rtf_escaped(run.0) + "}"@
}

pub open spec fn rtf_runs(runs: Seq<(Seq<char>, bool, bool)>, n: nat) -> Seq<char>
    decreases n,
{
    if n == 0 || n > runs.len() {
        Seq::empty()
    } else {
        rtf_runs(runs, (n - 1) as nat) + rtf_run(runs[n - 1])
    }
}

/// A block as RTF.
pub open spec fn rtf_block(b: Json) -> Seq<char> {
    let k = kind_of(b);
    if k == "pagebreak"@ {
        "\\page\n"@
    } else if k == "heading"@ {
        wrapped("{\\b\\fs32 "@, rtf_escaped(plain_text(b)), "}\\par\n"@)
    } else {
        rtf_runs(runs_of(b), runs_of(b).len()) + "\\par\n"@
    }
}

pub open spec fn rtf_body(blocks: Seq<Json>, n: nat) -> Seq<char>
    decreases n,
{
    if n == 0 || n > blocks.len() {
        Seq::empty()
    } else {
        rtf_body(blocks, (n - 1) as nat) + rtf_block(blocks[n - 1])
    }
}

/// Blocks as an RTF document.
pub open spec fn rtf_doc(blocks: Seq<Json>) -> Seq<char> {
    wrapped("{\\rtf1\\ansi\\deff0\n"@, rtf_body(blocks, blocks.len()), "}"@)
}

fn push_rtf_block(out: &mut String, b: &Value)
    ensures
        final(out)@ == old(out)@ + rtf_block(b.deep_view()),
{
    let ghost before = out@;
    let k = block_kind(b);
    if same(k, "pagebreak") {
        out.push_str("\\page\n");
    } else if same(k, "heading") {
        out.push_str("{\\b\\fs32 ");
        out.push_str(rtf_escape(block_plain_text(b).as_str()).as_str());
        out.push_str("}\\par\n");
    } else {
        let runs = block_runs(b);
        let ghost rv = runs_of(b.deep_view());
        let mut i: usize = 0;
        assert(out@ =~= before + rtf_runs(rv, 0));
        while i < runs.len()
            invariant
                i <= runs@.len(),
                rv == runs.deep_view(),
                out@ == before + rtf_runs(rv, i as nat),
            decreases runs@.len() - i,
        {
            assert(rv[i as int] == runs@[i as int].deep_view());
            out.push_str("{");
            if runs[i].1 {
                out.push_str("\\b ");
            }
            if runs[i].2 {
                out.push_str("\\i ");
            }
            out.push_str(rtf_escape(runs[i].0.as_str()).as_str());
            out.push_str("}");
            i = i + 1;
            assert(out@ =~= before + rtf_runs(rv, i as nat));
        }
        out.push_str("\\par\n");
    }
    assert(out@ =~= before + rtf_block(b.deep_view()));
}

/// Blocks as an RTF document.
pub fn write_doc_rtf(blocks: &Vec<Value>) -> (r: String)
    ensures
        r@ == rtf_doc(blocks.deep_view()),
{
    let mut s = copy_text("{\\rtf1\\ansi\\deff0\n");
    let mut i: usize = 0;
    assert(s@ =~= "{\\rtf1\\ansi\\deff0\n"@ + rtf_body(blocks.deep_view(), 0));
    while i < blocks.len()
        invariant
            i <= blocks@.len(),
            s@ == "{\\rtf1\\ansi\\deff0\n"@ + rtf_body(blocks.deep_view(), i as nat),
        decreases blocks@.len() - i,
    {
        assert(blocks.deep_view()[i as int] == blocks@[i as int].deep_view());
        push_rtf_block(&mut s, &blocks[i]);
        i = i + 1;
        assert(s@ =~= "{\\rtf1\\ansi\\deff0\n"@ + rtf_body(blocks.deep_view(), i as nat));
    }
    s.push_str("}");
    s
}

// ── reading text documents ──────────────────────────────────────────────────

/// What is left of the first `n` characters without tags, and whether the reader
/// is inside one.
pub open spec fn untagged(s: Seq<char>, n: nat) -> (Seq<char>, bool)
    decreases n,
{
    if n == 0 || n > s.len() {
        (Seq::empty(), false)
    } else {
        let (out, in_tag) = untagged(s, (n - 1) as nat);
        let c = s[n - 1];
        if c == '<' {
            (out, true)
        } else if c == '>' {
            (out, false)
        } else if in_tag {
            (out, true)
        } else {
            (out.push(c), false)
        }
    }
}

fn strip_tags(s: &str) -> (r: String)
    ensures
        r@ == untagged(s@, s@.len()).0,
{
    let cs = chars_of(s);
    let mut out = String::new();
    let mut in_tag = false;
    let mut i: usize = 0;
    while i < cs.len()
        invariant
            i <= cs@.len(),
            (out@, in_tag) == untagged(cs@, i as nat),
        decreases cs@.len() - i,
    {
        if cs[i] == '<' {
            in_tag = true;
        } else if cs[i] == '>' {
            in_tag = false;
        } else if !in_tag {
            out.push(cs[i]);
        }
        i = i + 1;
    }
    out
}

/// The first position at or after `i` that holds no letter and no digit.
pub open spec fn alnum_end(s: Seq<char>, i: int) -> int
    decreases s.len() - i,
{
    if 0 <= i < s.len() && is_alnum(s[i]) {
        alnum_end(s, i + 1)
    } else {
        i
    }
}

/// Where an RTF control word that starts at `i` ends: with one space after it.
pub open spec fn control_end(s: Seq<char>, i: int) -> int {
    let e = alnum_end(s, i + 1);
    if e < s.len() && s[e] == ' ' {
        e + 1
    } else {
        e
    }
}

/// RTF text from position `i` on without control words and braces.
pub open spec fn unrtf(s: Seq<char>, i: int) -> Seq<char>
    decreases s.len() - i,
{
    if i < 0 || i >= s.len() {
        Seq::empty()
    } else if s[i] == '\\' {
        if i < control_end(s, i) <= s.len() {
            unrtf(s, control_end(s, i))
        } else {
            Seq::empty()
        }
    } else if s[i] == '{' || s[i] == '}' {
        unrtf(s, i + 1)
    } else {
        seq![s[i]] + unrtf(s, i + 1)
    }
}

fn strip_rtf(s: &str) -> (r: String)
    ensures
        r@ == unrtf(s@, 0),
{
    let cs = chars_of(s);
    let mut out = String::new();
    let mut i: usize = 0;
    assert(out@ + unrtf(cs@, 0) =~= unrtf(cs@, 0));
    while i < cs.len()
        invariant
            i <= cs@.len(),
            out@ + unrtf(cs@, i as int) == unrtf(cs@, 0),
        decreases cs@.len() - i,
    {
        if cs[i] == '\\' {
            let mut e: usize = i + 1;
            while e < cs.len() && char_is_alnum(cs[e])
                invariant
                    i + 1 <= e <= cs@.len(),
                    alnum_end(cs@, i + 1) == alnum_end(cs@, e as int),
                decreases cs@.len() - e,
            {
                e = e + 1;
            }
            if e < cs.len() && cs[e] == ' ' {
                e = e + 1;
            }
            assert(e == control_end(cs@, i as int));
            i = e;
        } else if cs[i] == '{' || cs[i] == '}' {
            i = i + 1;
        } else {
            let ghost before = out@;
            let ghost rest = unrtf(cs@, i + 1);
            out.push(cs[i]);
            assert(before + (seq![cs@[i as int]] + rest) =~= before.push(cs@[i as int]) + rest);
            i = i + 1;
        }
    }
    assert(out@ =~= unrtf(cs@, 0));
    out
}

/// The trimmed lines among the first `n` that are not blank.
pub open spec fn trimmed_lines(ls: Seq<Seq<char>>, n: nat) -> Seq<Seq<char>>
    decreases n,
{
    if n == 0 || n > ls.len() {
        Seq::empty()
    } else {
        let before = trimmed_lines(ls, (n - 1) as nat);
        if trim(ls[n - 1]).len() > 0 {
            before.push(trim(ls[n - 1]))
        } else {
            before
        }
    }
}

/// The lines among the first `n` that are not blank.
pub open spec fn nonblank_lines(ls: Seq<Seq<char>>, n: nat) -> Seq<Seq<char>>
    decreases n,
{
    if n == 0 || n > ls.len() {
        Seq::empty()
    } else {
        let before = nonblank_lines(ls, (n - 1) as nat);
        if trim(ls[n - 1]).len() > 0 {
            before.push(ls[n - 1])
        } else {
            before
        }
    }
}

fn keep_lines(text: &str, trimmed: bool) -> (r: Vec<String>)
    ensures
        r.deep_view() == (if trimmed {
            trimmed_lines(lines(text@), lines(text@).len())
        } else {
            nonblank_lines(lines(text@), lines(text@).len())
        }),
{
    let ls = text_lines(text);
    let ghost lv = ls.deep_view();
    let mut out: Vec<String> = Vec::new();
    let mut i: usize = 0;
    assert(out.deep_view() =~= Seq::<Seq<char>>::empty());
    while i < ls.len()
        invariant
            i <= ls@.len(),
            lv == ls.deep_view(),
            out.deep_view() == (if trimmed {
                trimmed_lines(lv, i as nat)
            } else {
                nonblank_lines(lv, i as nat)
            }),
        decreases ls@.len() - i,
    {
        assert(lv[i as int] == ls@[i as int]@);
        let t = trim_text(ls[i].as_str());
        if chars_of(t.as_str()).len() > 0 {
            if trimmed {
                push_deep(&mut out, t);
            } else {
                push_deep(&mut out, ls[i].clone());
            }
        }
        i = i + 1;
    }
    out
}

/// The closing tags and line breaks of HTML that end a paragraph.
pub open spec fn html_breaks(s: Seq<char>) -> Seq<char> {
    let a = replaced(s, "</p>"@, "\n"@);
    let b = replaced(a, "</h1>"@, "\n"@);
    let c = replaced(b, "</h2>"@, "\n"@);
    let d = replaced(c, "</h3>"@, "\n"@);
    let e = replaced(d, "</li>"@, "\n"@);
    let f = replaced(e, "<br>"@, "\n"@);
    replaced(f, "<br/>"@, "\n"@)
}

/// The paragraphs of a text document, by its extension: HTML without its tags, RTF
/// without its control words, the nonblank lines of anything else.
pub open spec fn text_paragraphs(raw: Seq<char>, ext: Seq<char>) -> Seq<Seq<char>> {
    if ext == "html"@ || ext == "htm"@ {
        let n = html_breaks(raw);
        let ls = lines(untagged(n, n.len()).0);
        trimmed_lines(ls, ls.len())
    } else if ext == "rtf"@ {
        let ls = lines(unrtf(raw, 0));
        trimmed_lines(ls, ls.len())
    } else {
        nonblank_lines(lines(raw), lines(raw).len())
    }
}

pub fn read_doc_text(raw: &str, ext: &str) -> (r: Vec<String>)
    ensures
        r.deep_view() == text_paragraphs(raw@, ext@),
{
    if same(ext, "html") || same(ext, "htm") {
        proof {
            reveal_strlit("</p>");
            reveal_strlit("</h1>");
            reveal_strlit("</h2>");
            reveal_strlit("</h3>");
            reveal_strlit("</li>");
            reveal_strlit("<br>");
            reveal_strlit("<br/>");
        }
        let a = replace_text(raw, "</p>", "\n");
        let b = replace_text(a.as_str(), "</h1>", "\n");
        let c = replace_text(b.as_str(), "</h2>", "\n");
        let d = replace_text(c.as_str(), "</h3>", "\n");
        let e = replace_text(d.as_str(), "</li>", "\n");
        let f = replace_text(e.as_str(), "<br>", "\n");
        let g = replace_text(f.as_str(), "<br/>", "\n");
        keep_lines(strip_tags(g.as_str()).as_str(), true)
    } else if same(ext, "rtf") {
        keep_lines(strip_rtf(raw).as_str(), true)
    } else {
        keep_lines(raw, false)
    }
}

// ── what is left of marked text ─────────────────────────────────────────────

proof fn lemma_untagged_add(a: Seq<char>, b: Seq<char>, n: nat)
    requires
        n <= b.len(),
        !untagged(a, a.len()).1,
    ensures
        untagged(a + b, a.len() + n).0 == untagged(a, a.len()).0 + untagged(b, n).0,
        untagged(a + b, a.len() + n).1 == untagged(b, n).1,
    decreases n,
{
    if n > 0 {
        lemma_untagged_add(a, b, (n - 1) as nat);
        assert((a + b)[a.len() + n - 1] == b[n - 1]);
        assert(untagged(a + b, a.len() + n).0 =~= untagged(a, a.len()).0 + untagged(b, n).0);
    } else {
        lemma_untagged_same(a + b, a, a.len());
        assert(untagged(a, a.len()).0 + untagged(b, 0).0 =~= untagged(a, a.len()).0);
    }
}

proof fn lemma_untagged_same(a: Seq<char>, b: Seq<char>, n: nat)
    requires
        n <= a.len(),
        n <= b.len(),
        forall|i: int| 0 <= i < n ==> a[i] == b[i],
    ensures
        untagged(a, n) == untagged(b, n),
    decreases n,
{
    if n > 0 {
        lemma_untagged_same(a, b, (n - 1) as nat);
    }
}

/// Whether a text holds no angle bracket.
pub open spec fn is_outside_tags(s: Seq<char>) -> bool {
    forall|i: int| 0 <= i < s.len() ==> (#[trigger] s[i]) != '<' && s[i] != '>'
}

proof fn lemma_untagged_plain(s: Seq<char>, n: nat)
    requires
        n <= s.len(),
        is_outside_tags(s),
    ensures
        untagged(s, n) == (s.take(n as int), false),
    decreases n,
{
    if n > 0 {
        lemma_untagged_plain(s, (n - 1) as nat);
        assert(s.take(n as int) =~= s.take(n - 1).push(s[n - 1]));
    } else {
        assert(s.take(0) =~= Seq::<char>::empty());
    }
}

proof fn lemma_untagged_tag(tag: Seq<char>, n: nat)
    requires
        is_outside_tags(tag),
        n <= tag.len(),
    ensures
        untagged(seq!['<'] + tag + seq!['>'], n + 1) == (Seq::<char>::empty(), true),
    decreases n,
{
    let s = seq!['<'] + tag + seq!['>'];
    if n > 0 {
        lemma_untagged_tag(tag, (n - 1) as nat);
        assert(s[n as int] == tag[n - 1]);
    } else {
        assert(s[0] == '<');
        assert(untagged(s, 0) == (Seq::<char>::empty(), false));
    }
}

/// What stands outside of tags stays, and a tag leaves nothing.
pub proof fn tags_are_left_out(a: Seq<char>, tag: Seq<char>, b: Seq<char>)
    requires
        is_outside_tags(a),
        is_outside_tags(tag),
    ensures
        ({
            let s = a + (seq!['<'] + tag + seq!['>']) + b;
            untagged(s, s.len()).0 == a + untagged(b, b.len()).0
        }),
        untagged(a, a.len()).0 == a,
{
    let t = seq!['<'] + tag + seq!['>'];
    lemma_untagged_plain(a, a.len());
    assert(a.take(a.len() as int) =~= a);
    lemma_untagged_tag(tag, tag.len());
    assert(t[tag.len() as int + 1] == '>');
    assert(untagged(t, t.len()) == (Seq::<char>::empty(), false));
    lemma_untagged_add(a, t, t.len());
    lemma_untagged_add(a + t, b, b.len());
    assert(a + Seq::<char>::empty() =~= a);
}

/// Whether a text has nothing that RTF gives a meaning.
pub open spec fn is_outside_rtf(s: Seq<char>) -> bool {
    forall|i: int|
        0 <= i < s.len() ==> (#[trigger] s[i]) != '\\' && s[i] != '{' && s[i] != '}'
}

proof fn lemma_alnum_end(s: Seq<char>, i: int, e: int)
    requires
        0 <= i <= e < s.len(),
        forall|k: int| i <= k < e ==> is_alnum(#[trigger] s[k]),
        !is_alnum(s[e]),
    ensures
        alnum_end(s, i) == e,
    decreases e - i,
{
    if i < e {
        lemma_alnum_end(s, i + 1, e);
    }
}

proof fn lemma_unrtf_skip(s: Seq<char>, t: Seq<char>, d: int, i: int)
    requires
        0 <= d,
        0 <= i,
        s.len() == t.len() + d,
        forall|k: int| 0 <= k < t.len() ==> #[trigger] s[d + k] == t[k],
    ensures
        unrtf(s, d + i) == unrtf(t, i),
    decreases t.len() - i,
{
    if i < t.len() {
        assert(s[d + i] == t[i]);
        lemma_unrtf_skip(s, t, d, i + 1);
        if t[i] == '\\' {
            lemma_alnum_skip(s, t, d, i + 1);
            let e = alnum_end(t, i + 1);
            if e < t.len() {
                assert(s[d + e] == t[e]);
            }
            if i < control_end(t, i) <= t.len() {
                lemma_unrtf_skip(s, t, d, control_end(t, i));
            }
        }
    }
}

proof fn lemma_alnum_skip(s: Seq<char>, t: Seq<char>, d: int, i: int)
    requires
        0 <= d,
        0 <= i <= t.len(),
        s.len() == t.len() + d,
        forall|k: int| 0 <= k < t.len() ==> #[trigger] s[d + k] == t[k],
    ensures
        alnum_end(s, d + i) == d + alnum_end(t, i),
        i <= alnum_end(t, i) <= t.len(),
    decreases t.len() - i,
{
    if i < t.len() {
        assert(s[d + i] == t[i]);
        if is_alnum(t[i]) {
            lemma_alnum_skip(s, t, d, i + 1);
        }
    }
}

proof fn lemma_unrtf_plain(s: Seq<char>, a: Seq<char>, i: int)
    requires
        is_outside_rtf(a),
        0 <= i <= a.len() <= s.len(),
        forall|k: int| 0 <= k < a.len() ==> #[trigger] s[k] == a[k],
    ensures
        unrtf(s, i) == a.skip(i) + unrtf(s, a.len() as int),
    decreases a.len() - i,
{
    if i < a.len() {
        lemma_unrtf_plain(s, a, i + 1);
        assert(s[i] == a[i]);
        assert(seq![a[i]] + (a.skip(i + 1) + unrtf(s, a.len() as int)) =~= a.skip(i) + unrtf(
            s,
            a.len() as int,
        ));
    } else {
        assert(a.skip(i) + unrtf(s, a.len() as int) =~= unrtf(s, a.len() as int));
    }
}

/// What stands outside of control words and braces stays; a control word leaves nothing, nor
/// does the one blank behind it, and neither does a brace.
pub proof fn control_words_are_left_out(a: Seq<char>, word: Seq<char>, b: Seq<char>)
    requires
        is_outside_rtf(a),
        forall|i: int| 0 <= i < word.len() ==> is_alnum(#[trigger] word[i]),
    ensures
        unrtf(a, 0) == a,
        unrtf(a + (seq!['\\'] + word + seq![' ']) + b, 0) == a + unrtf(b, 0),
        unrtf(a + seq!['{'] + b, 0) == a + unrtf(b, 0),
        unrtf(a + seq!['}'] + b, 0) == a + unrtf(b, 0),
{
    let n = a.len() as int;
    lemma_unrtf_plain(a, a, 0);
    assert(a.skip(0) =~= a);
    assert(a.skip(0) + unrtf(a, n) =~= a);
    let t = seq!['\\'] + word + seq![' '];
    let s = a + t + b;
    lemma_unrtf_plain(s, a, 0);
    assert(s[n] == '\\');
    let e = n + 1 + word.len();
    assert(s[e] == ' ') by {
        assert(t[1 + word.len() as int] == ' ');
    }
    assert forall|k: int| n + 1 <= k < e implies is_alnum(#[trigger] s[k]) by {
        assert(s[k] == t[k - n]);
        assert(t[k - n] == word[k - n - 1]);
    }
    assert(!is_alnum(' '));
    lemma_alnum_end(s, n + 1, e);
    assert(control_end(s, n) == e + 1);
    lemma_unrtf_skip(s, b, e + 1, 0);
    let open = a + seq!['{'] + b;
    lemma_unrtf_plain(open, a, 0);
    assert(open[n] == '{');
    lemma_unrtf_skip(open, b, n + 1, 0);
    let close = a + seq!['}'] + b;
    lemma_unrtf_plain(close, a, 0);
    assert(close[n] == '}');
    lemma_unrtf_skip(close, b, n + 1, 0);
}

/// A run is marked as bold and as slanted just where it is, in each way of writing; its text
/// stands within the marks.
pub proof fn runs_are_marked_as_they_are(t: Seq<char>)
    ensures
        html_run((t, false, false)) == escaped(t),
        html_run((t, true, false)) == "<b>"@ + escaped(t) + "</b>"@,
        html_run((t, false, true)) == "<i>"@ + escaped(t) + "</i>"@,
        html_run((t, true, true)) == "<i>"@ + ("<b>"@ + escaped(t) + "</b>"@) + "</i>"@,
        md_run((t, false, false)) == t,
        md_run((t, true, false)) == "**"@ + t + "**"@,
        md_run((t, false, true)) == "_"@ + t + "_"@,
        md_run((t, true, true)) == "_"@ + ("**"@ + t + "**"@) + "_"@,
        rtf_run((t, false, false)) == "{"@ + rtf_escaped(t) + "}"@,
        rtf_run((t, true, false)) == "{"@ + "\\b "@ + rtf_escaped(t) + "}"@,
        rtf_run((t, false, true)) == "{"@ + "\\i "@ + rtf_escaped(t) + "}"@,
        rtf_run((t, true, true)) == "{"@ + "\\b "@ + "\\i "@ + rtf_escaped(t) + "}"@,
{
    let none = Seq::<char>::empty();
    assert("{"@ + none + none =~= "{"@);
    assert("{"@ + "\\b "@ + none =~= "{"@ + "\\b "@);
    assert("{"@ + none + "\\i "@ =~= "{"@ + "\\i "@);
}

/// The runs of a block are read from its list, each with its text and whether it is bold and
/// slanted; a block without a list is one run.
pub proof fn runs_are_read_from_their_list(b: Json, runs: Seq<Json>, i: int, on: bool)
    requires
        field(b, "runs"@) == Some(Json::Array(runs)),
        0 <= i < runs.len(),
    ensures
        runs_of(b).len() == runs.len(),
        field(runs[i], "text"@) is Some && field(runs[i], "text"@)->0 is Text ==> runs_of(b)[i].0
            == field(runs[i], "text"@)->0->Text_0,
        field(runs[i], "bold"@) is None ==> !runs_of(b)[i].1,
        field(runs[i], "bold"@) == Some(Json::Bool(on)) ==> runs_of(b)[i].1 == on,
        field(runs[i], "italic"@) is None ==> !runs_of(b)[i].2,
        field(runs[i], "italic"@) == Some(Json::Bool(on)) ==> runs_of(b)[i].2 == on,
{
}

} // verus!
