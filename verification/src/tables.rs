//! The first sheet as an HTML table and as a Markdown table.

use crate::deep::push_deep;
use crate::formats::{
    escaped, first_rows, row_texts, texts_of_row, xml_escape, Sheet,
};
use crate::text::{
    chars_of, copy_text, join, join_texts, mapped_chars,
};
use crate::value::{cell_text, sheet_cell_disp, shown, Json, Value};
use vstd::prelude::*;

verus! {

/// The cells `texts[0..n]` in `<tag>` elements.
pub open spec fn html_cells(texts: Seq<Seq<char>>, tag: Seq<char>, n: nat) -> Seq<char>
    decreases n,
{
    if n == 0 || n > texts.len() {
        Seq::empty()
    } else {
        html_cells(texts, tag, (n - 1) as nat) + "<"@ + tag + ">"@ + escaped(texts[n - 1]) + "</"@
            + tag + ">"@
    }
}

/// The first `n` rows as table rows; the first one holds headings.
pub open spec fn html_rows(rows: Seq<Seq<Json>>, n: nat) -> Seq<char>
    decreases n,
{
    if n == 0 || n > rows.len() {
        Seq::empty()
    } else {
        let texts = row_texts(rows[n - 1]);
        html_rows(rows, (n - 1) as nat) + "<tr>"@ + html_cells(
            texts,
            if n == 1 {
                "th"@
            } else {
                "td"@
            },
            texts.len(),
        ) + "</tr>\n"@
    }
}

/// Rows as an HTML table.
pub open spec fn html_table(rows: Seq<Seq<Json>>) -> Seq<char> {
    "<table>\n"@ + html_rows(rows, rows.len()) + "</table>\n"@
}

fn push_html_cells(out: &mut String, texts: &Vec<String>, tag: &str)
    ensures
        final(out)@ == old(out)@ + html_cells(texts.deep_view(), tag@, texts@.len()),
{
    let ghost before = out@;
    let mut i: usize = 0;
    assert(out@ =~= before + html_cells(texts.deep_view(), tag@, 0));
    while i < texts.len()
        invariant
            i <= texts@.len(),
            out@ == before + html_cells(texts.deep_view(), tag@, i as nat),
        decreases texts@.len() - i,
    {
        assert(texts.deep_view()[i as int] == texts@[i as int]@);
        out.push_str("<");
        out.push_str(tag);
        out.push_str(">");
        out.push_str(xml_escape(texts[i].as_str()).as_str());
        out.push_str("</");
        out.push_str(tag);
        out.push_str(">");
        i = i + 1;
        assert(out@ =~= before + html_cells(texts.deep_view(), tag@, i as nat));
    }
}

/// The first sheet as an HTML table: headings from the first row, data below.
pub fn write_sheet_html(sheets: &Vec<Sheet>) -> (r: String)
    ensures
        r@ == html_table(first_rows(sheets.deep_view())),
{
    let mut out = copy_text("<table>\n");
    let ghost rv = first_rows(sheets.deep_view());
    assert(out@ =~= "<table>\n"@ + html_rows(rv, 0));
    if sheets.len() > 0 {
        let rows = &sheets[0].1;
        let mut i: usize = 0;
        assert(sheets.deep_view()[0] == sheets@[0].deep_view());
        while i < rows.len()
            invariant
                i <= rows@.len(),
                rv == rows.deep_view(),
                out@ == "<table>\n"@ + html_rows(rv, i as nat),
            decreases rows@.len() - i,
        {
            assert(rv[i as int] == rows@[i as int].deep_view());
            let texts = texts_of_row(&rows[i]);
            out.push_str("<tr>");
            if i == 0 {
                push_html_cells(&mut out, &texts, "th");
            } else {
                push_html_cells(&mut out, &texts, "td");
            }
            out.push_str("</tr>\n");
            i = i + 1;
            assert(out@ =~= "<table>\n"@ + html_rows(rv, i as nat));
        }
    }
    out.push_str("</table>\n");
    out
}

// ── Markdown ────────────────────────────────────────────────────────────────

/// The length of the longest of the first `n` rows.
pub open spec fn widest(rows: Seq<Seq<Json>>, n: nat) -> nat
    decreases n,
{
    if n == 0 || n > rows.len() {
        0
    } else {
        let w = widest(rows, (n - 1) as nat);
        if rows[n - 1].len() > w {
            rows[n - 1].len()
        } else {
            w
        }
    }
}

/// The number of columns: the length of the longest row.
pub fn count_columns(rows: &Vec<Vec<Value>>) -> (r: usize)
    ensures
        r == widest(rows.deep_view(), rows@.len()),
        forall|i: int| 0 <= i < rows@.len() ==> (#[trigger] rows@[i])@.len() <= r,
{
    let mut w: usize = 0;
    let mut i: usize = 0;
    while i < rows.len()
        invariant
            i <= rows@.len(),
            w == widest(rows.deep_view(), i as nat),
            forall|k: int| 0 <= k < i ==> (#[trigger] rows@[k])@.len() <= w,
        decreases rows@.len() - i,
    {
        assert(rows.deep_view()[i as int] == rows@[i as int].deep_view());
        if rows[i].len() > w {
            w = rows[i].len();
        }
        i = i + 1;
    }
    w
}

pub open spec fn md_char(c: char) -> Seq<char> {
    if c == '|' {
        "\\|"@
    } else if c == '\n' {
        " "@
    } else {
        seq![c]
    }
}

/// A cell text with its pipes escaped and its line feeds made spaces.
pub open spec fn md_escaped(s: Seq<char>) -> Seq<char> {
    mapped_chars(s, |c: char| md_char(c), s.len())
}

fn md_escape(s: &str) -> (r: String)
    ensures
        r@ == md_escaped(s@),
{
    let cs = chars_of(s);
    let mut out = String::new();
    let mut i: usize = 0;
    let ghost f = |c: char| md_char(c);
    while i < cs.len()
        invariant
            i <= cs@.len(),
            f == (|c: char| md_char(c)),
            out@ == mapped_chars(cs@, f, i as nat),
        decreases cs@.len() - i,
    {
        let ghost before = out@;
        if cs[i] == '|' {
            out.push_str("\\|");
        } else if cs[i] == '\n' {
            out.push_str(" ");
        } else {
            out.push(cs[i]);
        }
        assert(out@ =~= before + f(cs@[i as int]));
        i = i + 1;
    }
    out
}

/// The display text of column `c` of a row, empty where the row is shorter.
pub open spec fn text_at_col(row: Seq<Json>, c: int) -> Seq<char> {
    if 0 <= c < row.len() {
        cell_text(shown(row[c]))
    } else {
        Seq::empty()
    }
}

pub open spec fn md_cells(row: Seq<Json>, ncols: nat) -> Seq<Seq<char>> {
    Seq::new(ncols, |c: int| md_escaped(text_at_col(row, c)))
}

/// Cells as a line of a pipe table.
pub open spec fn pipe_line(cells: Seq<Seq<char>>) -> Seq<char> {
    "| "@ + join(cells, " | "@) + " |\n"@
}

pub open spec fn dashes(ncols: nat) -> Seq<Seq<char>> {
    Seq::new(ncols, |c: int| "---"@)
}

/// The first `n` rows as a pipe table of `ncols` columns, with the separator line
/// below the first.
pub open spec fn md_rows(rows: Seq<Seq<Json>>, ncols: nat, n: nat) -> Seq<char>
    decreases n,
{
    if n == 0 || n > rows.len() {
        Seq::empty()
    } else {
        md_rows(rows, ncols, (n - 1) as nat) + pipe_line(md_cells(rows[n - 1], ncols)) + (if n
            == 1 {
            pipe_line(dashes(ncols))
        } else {
            Seq::empty()
        })
    }
}

fn push_pipe_line(out: &mut String, cells: &Vec<String>)
    ensures
        final(out)@ == old(out)@ + pipe_line(cells.deep_view()),
{
    let ghost before = out@;
    out.push_str("| ");
    out.push_str(join_texts(cells, " | ").as_str());
    out.push_str(" |\n");
    assert(out@ =~= before + pipe_line(cells.deep_view()));
}

fn make_dashes(ncols: usize) -> (r: Vec<String>)
    ensures
        r.deep_view() == dashes(ncols as nat),
{
    let mut out: Vec<String> = Vec::new();
    let mut i: usize = 0;
    while i < ncols
        invariant
            i <= ncols,
            out.deep_view() == dashes(i as nat),
        decreases ncols - i,
    {
        push_deep(&mut out, copy_text("---"));
        i = i + 1;
        assert(out.deep_view() =~= dashes(i as nat));
    }
    out
}

fn make_md_cells(row: &Vec<Value>, ncols: usize) -> (r: Vec<String>)
    ensures
        r.deep_view() == md_cells(row.deep_view(), ncols as nat),
{
    let mut out: Vec<String> = Vec::new();
    let mut c: usize = 0;
    while c < ncols
        invariant
            c <= ncols,
            out.deep_view() == md_cells(row.deep_view(), c as nat),
        decreases ncols - c,
    {
        let t = if c < row.len() {
            assert(row.deep_view()[c as int] == row@[c as int].deep_view());
            sheet_cell_disp(&row[c])
        } else {
            String::new()
        };
        push_deep(&mut out, md_escape(t.as_str()));
        c = c + 1;
        assert(out.deep_view() =~= md_cells(row.deep_view(), c as nat));
    }
    out
}

/// The first sheet as a Markdown table whose header is the first row.
pub fn write_sheet_md(sheets: &Vec<Sheet>) -> (r: String)
    ensures
        r@ == md_rows(
            first_rows(sheets.deep_view()),
            widest(first_rows(sheets.deep_view()), first_rows(sheets.deep_view()).len()),
            first_rows(sheets.deep_view()).len(),
        ),
{
    let mut out = String::new();
    if sheets.len() > 0 {
        let rows = &sheets[0].1;
        assert(sheets.deep_view()[0] == sheets@[0].deep_view());
        let ncols = count_columns(rows);
        let ghost rv = rows.deep_view();
        let mut i: usize = 0;
        while i < rows.len()
            invariant
                i <= rows@.len(),
                rv == rows.deep_view(),
                out@ == md_rows(rv, ncols as nat, i as nat),
            decreases rows@.len() - i,
        {
            assert(rv[i as int] == rows@[i as int].deep_view());
            let ghost before = out@;
            push_pipe_line(&mut out, &make_md_cells(&rows[i], ncols));
            if i == 0 {
                push_pipe_line(&mut out, &make_dashes(ncols));
            }
            i = i + 1;
            assert(out@ =~= md_rows(rv, ncols as nat, i as nat));
        }
    }
    out
}

} // verus!
