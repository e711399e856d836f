//! Plain-text formats: CSV, HTML and Markdown tables, and documents as HTML,
//! Markdown, RTF and text.

use crate::deep::push_deep;
use crate::text::{chars_of, copy_text, has_char, join, join_texts, mapped_chars};
use crate::value::{cell_text, field, sheet_cell_disp, shown, Json, Value};
use vstd::prelude::*;

verus! {

/// A sheet: its name and its rows of cells.
pub type Sheet = (String, Vec<Vec<Value>>);

/// What a [`Sheet`] stands for.
pub type SheetView = (Seq<char>, Seq<Seq<Json>>);

// ── escaping ────────────────────────────────────────────────────────────────

pub open spec fn xml_char(c: char) -> Seq<char> {
    if c == '&' {
        "&amp;"@
    } else if c == '<' {
        "&lt;"@
    } else if c == '>' {
        "&gt;"@
    } else if c == '"' {
        "&quot;"@
    } else {
        seq![c]
    }
}

/// A text with `&`, `<`, `>` and `"` written as entities.
pub open spec fn escaped(s: Seq<char>) -> Seq<char> {
    mapped_chars(s, |c: char| xml_char(c), s.len())
}

pub fn xml_escape(s: &str) -> (r: String)
    ensures
        r@ == escaped(s@),
{
    let cs = chars_of(s);
    let mut out = String::new();
    let mut i: usize = 0;
    let ghost f = |c: char| xml_char(c);
    while i < cs.len()
        invariant
            i <= cs@.len(),
            f == (|c: char| xml_char(c)),
            out@ == mapped_chars(cs@, f, i as nat),
        decreases cs@.len() - i,
    {
        let ghost before = out@;
        if cs[i] == '&' {
            out.push_str("&amp;");
        } else if cs[i] == '<' {
            out.push_str("&lt;");
        } else if cs[i] == '>' {
            out.push_str("&gt;");
        } else if cs[i] == '"' {
            out.push_str("&quot;");
        } else {
            out.push(cs[i]);
        }
        assert(out@ =~= before + f(cs@[i as int]));
        i = i + 1;
    }
    out
}

/// An escaped text holds no `<`, no `>` and no `"`.
pub proof fn escaped_is_inert(s: Seq<char>)
    ensures
        !escaped(s).contains('<'),
        !escaped(s).contains('>'),
        !escaped(s).contains('"'),
{
    lemma_escaped_inert(s, s.len());
}

/// Whether a text holds none of `<`, `>` and `"`.
pub open spec fn inert(t: Seq<char>) -> bool {
    forall|k: int| 0 <= k < t.len() ==> (#[trigger] t[k]) != '<' && t[k] != '>' && t[k] != '"'
}

proof fn lemma_escaped_inert(s: Seq<char>, n: nat)
    requires
        n <= s.len(),
    ensures
        inert(mapped_chars(s, |c: char| xml_char(c), n)),
    decreases n,
{
    if n > 0 {
        lemma_escaped_inert(s, (n - 1) as nat);
        reveal_strlit("&amp;");
        reveal_strlit("&lt;");
        reveal_strlit("&gt;");
        reveal_strlit("&quot;");
        assert(inert(xml_char(s[n - 1])));
    }
}

pub open spec fn rtf_char(c: char) -> Seq<char> {
    if c == '\\' {
        "\\\\"@
    } else if c == '{' {
        "\\{"@
    } else if c == '}' {
        "\\}"@
    } else {
        seq![c]
    }
}

/// A text with a backslash before each backslash and brace.
pub open spec fn rtf_escaped(s: Seq<char>) -> Seq<char> {
    mapped_chars(s, |c: char| rtf_char(c), s.len())
}

pub fn rtf_escape(s: &str) -> (r: String)
    ensures
        r@ == rtf_escaped(s@),
{
    let cs = chars_of(s);
    let mut out = String::new();
    let mut i: usize = 0;
    let ghost f = |c: char| rtf_char(c);
    while i < cs.len()
        invariant
            i <= cs@.len(),
            f == (|c: char| rtf_char(c)),
            out@ == mapped_chars(cs@, f, i as nat),
        decreases cs@.len() - i,
    {
        let ghost before = out@;
        if cs[i] == '\\' {
            out.push_str("\\\\");
        } else if cs[i] == '{' {
            out.push_str("\\{");
        } else if cs[i] == '}' {
            out.push_str("\\}");
        } else {
            out.push(cs[i]);
        }
        assert(out@ =~= before + f(cs@[i as int]));
        i = i + 1;
    }
    out
}

// ── CSV ─────────────────────────────────────────────────────────────────────

/// Whether a field must stand in quotes.
pub open spec fn needs_quotes(s: Seq<char>, delim: char) -> bool {
    s.contains(delim) || s.contains('"') || s.contains('\n') || s.contains('\r')
}

pub open spec fn doubled(c: char) -> Seq<char> {
    if c == '"' {
        seq!['"', '"']
    } else {
        seq![c]
    }
}

/// A field as CSV writes it: in quotes, with each quote doubled, where it holds
/// the delimiter, a quote or a line end.
pub open spec fn csv_quoted(s: Seq<char>, delim: char) -> Seq<char> {
    if needs_quotes(s, delim) {
        seq!['"'] + mapped_chars(s, |c: char| doubled(c), s.len()) + seq!['"']
    } else {
        s
    }
}

pub fn csv_field(s: &str, delim: char) -> (r: String)
    ensures
        r@ == csv_quoted(s@, delim),
{
    if has_char(s, delim) || has_char(s, '"') || has_char(s, '\n') || has_char(s, '\r') {
        let cs = chars_of(s);
        let mut out = String::new();
        out.push('"');
        let mut i: usize = 0;
        let ghost f = |c: char| doubled(c);
        assert(out@ =~= seq!['"'] + mapped_chars(cs@, f, 0));
        while i < cs.len()
            invariant
                i <= cs@.len(),
                f == (|c: char| doubled(c)),
                out@ == seq!['"'] + mapped_chars(cs@, f, i as nat),
            decreases cs@.len() - i,
        {
            let ghost before = out@;
            if cs[i] == '"' {
                out.push('"');
            }
            out.push(cs[i]);
            i = i + 1;
            assert(out@ =~= before + f(cs@[i - 1]));
            assert(out@ =~= seq!['"'] + mapped_chars(cs@, f, i as nat));
        }
        out.push('"');
        assert(out@ =~= csv_quoted(s@, delim));
        out
    } else {
        copy_text(s)
    }
}

/// The fields of a row as CSV writes them.
pub open spec fn csv_fields(texts: Seq<Seq<char>>, delim: char) -> Seq<Seq<char>> {
    Seq::new(texts.len(), |i: int| csv_quoted(texts[i], delim))
}

/// A row of texts as a CSV line with its line end.
pub open spec fn csv_line(texts: Seq<Seq<char>>, delim: char) -> Seq<char> {
    join(csv_fields(texts, delim), seq![delim]) + seq!['\n']
}

/// The first `n` rows of texts as CSV.
pub open spec fn csv_lines(rows: Seq<Seq<Seq<char>>>, delim: char, n: nat) -> Seq<char>
    decreases n,
{
    if n == 0 || n > rows.len() {
        Seq::empty()
    } else {
        csv_lines(rows, delim, (n - 1) as nat) + csv_line(rows[n - 1], delim)
    }
}

/// The display texts of a row of cells.
pub open spec fn row_texts(row: Seq<Json>) -> Seq<Seq<char>> {
    Seq::new(row.len(), |i: int| cell_text(shown(row[i])))
}

/// The display texts of rows of cells.
pub open spec fn rows_texts(rows: Seq<Seq<Json>>) -> Seq<Seq<Seq<char>>> {
    Seq::new(rows.len(), |i: int| row_texts(rows[i]))
}

/// The rows of the first sheet.
pub open spec fn first_rows(sheets: Seq<SheetView>) -> Seq<Seq<Json>> {
    if sheets.len() > 0 {
        sheets[0].1
    } else {
        Seq::empty()
    }
}

/// The display texts of a row of cells.
pub fn texts_of_row(row: &Vec<Value>) -> (r: Vec<String>)
    ensures
        r.deep_view() == row_texts(row.deep_view()),
{
    let mut out: Vec<String> = Vec::new();
    let mut i: usize = 0;
    while i < row.len()
        invariant
            i <= row@.len(),
            out.deep_view() == row_texts(row.deep_view()).take(i as int),
        decreases row@.len() - i,
    {
        push_deep(&mut out, sheet_cell_disp(&row[i]));
        assert(row.deep_view()[i as int] == row@[i as int].deep_view());
        i = i + 1;
        assert(out.deep_view() =~= row_texts(row.deep_view()).take(i as int));
    }
    assert(out.deep_view() =~= row_texts(row.deep_view()));
    out
}

fn csv_line_of(texts: &Vec<String>, delim: char) -> (r: String)
    ensures
        r@ == csv_line(texts.deep_view(), delim),
{
    let mut fields: Vec<String> = Vec::new();
    let mut i: usize = 0;
    while i < texts.len()
        invariant
            i <= texts@.len(),
            fields.deep_view() == csv_fields(texts.deep_view(), delim).take(i as int),
        decreases texts@.len() - i,
    {
        push_deep(&mut fields, csv_field(texts[i].as_str(), delim));
        assert(texts.deep_view()[i as int] == texts@[i as int]@);
        i = i + 1;
        assert(fields.deep_view() =~= csv_fields(texts.deep_view(), delim).take(i as int));
    }
    assert(fields.deep_view() =~= csv_fields(texts.deep_view(), delim));
    let mut sep = String::new();
    sep.push(delim);
    assert(sep@ =~= seq![delim]);
    let mut out = join_texts(&fields, sep.as_str());
    out.push('\n');
    assert(out@ =~= csv_line(texts.deep_view(), delim));
    out
}

/// The first sheet as CSV, with `delim` between the fields.
pub fn write_csv(sheets: &Vec<Sheet>, delim: char) -> (r: String)
    ensures
        r@ == csv_lines(
            rows_texts(first_rows(sheets.deep_view())),
            delim,
            first_rows(sheets.deep_view()).len(),
        ),
{
    let mut out = String::new();
    if sheets.len() > 0 {
        let rows = &sheets[0].1;
        let ghost rv = rows_texts(rows.deep_view());
        let mut i: usize = 0;
        assert(sheets.deep_view()[0] == sheets@[0].deep_view());
        while i < rows.len()
            invariant
                i <= rows@.len(),
                rv == rows_texts(rows.deep_view()),
                out@ == csv_lines(rv, delim, i as nat),
            decreases rows@.len() - i,
        {
            assert(rows.deep_view()[i as int] == rows@[i as int].deep_view());
            let texts = texts_of_row(&rows[i]);
            out.push_str(csv_line_of(&texts, delim).as_str());
            i = i + 1;
        }
    }
    out
}

/// What has been read of a CSV text: complete rows, the fields of the open row,
/// the open field, and whether it is inside quotes.
#[verifier::ext_equal]
pub struct CsvView {
    pub rows: Seq<Seq<Seq<char>>>,
    pub row: Seq<Seq<char>>,
    pub field: Seq<char>,
    pub quoted: bool,
}

/// Reads on from position `i`.
pub open spec fn csv_from(s: Seq<char>, delim: char, i: int, st: CsvView) -> CsvView
    decreases s.len() - i,
{
    if i < 0 || i >= s.len() {
        st
    } else {
        let c = s[i];
        if st.quoted {
            if c == '"' {
                if i + 1 < s.len() && s[i + 1] == '"' {
                    csv_from(s, delim, i + 2, CsvView { field: st.field.push('"'), ..st })
                } else {
                    csv_from(s, delim, i + 1, CsvView { quoted: false, ..st })
                }
            } else {
                csv_from(s, delim, i + 1, CsvView { field: st.field.push(c), ..st })
            }
        } else if c == '"' {
            csv_from(s, delim, i + 1, CsvView { quoted: true, ..st })
        } else if c == delim {
            csv_from(
                s,
                delim,
                i + 1,
                CsvView { row: st.row.push(st.field), field: Seq::empty(), ..st },
            )
        } else if c == '\n' {
            csv_from(
                s,
                delim,
                i + 1,
                CsvView {
                    rows: st.rows.push(st.row.push(st.field)),
                    row: Seq::empty(),
                    field: Seq::empty(),
                    ..st
                },
            )
        } else if c != '\r' {
            csv_from(s, delim, i + 1, CsvView { field: st.field.push(c), ..st })
        } else {
            csv_from(s, delim, i + 1, st)
        }
    }
}

pub open spec fn csv_begin() -> CsvView {
    CsvView { rows: Seq::empty(), row: Seq::empty(), field: Seq::empty(), quoted: false }
}

/// The rows once the text is over: what is still open makes a last row.
pub open spec fn csv_finish(st: CsvView) -> Seq<Seq<Seq<char>>> {
    if st.field.len() > 0 || st.row.len() > 0 {
        st.rows.push(st.row.push(st.field))
    } else {
        st.rows
    }
}

/// The rows of fields of a CSV text, with quotes, doubled quotes and line ends
/// inside quotes understood.
pub open spec fn csv_rows(s: Seq<char>, delim: char) -> Seq<Seq<Seq<char>>> {
    csv_finish(csv_from(s, delim, 0, csv_begin()))
}

/// The rows of fields of a CSV text.
pub fn read_csv(text: &str, delim: char) -> (r: Vec<Vec<String>>)
    ensures
        r.deep_view() == csv_rows(text@, delim),
{
    let cs = chars_of(text);
    let mut rows: Vec<Vec<String>> = Vec::new();
    let mut row: Vec<String> = Vec::new();
    let mut field = String::new();
    let mut quoted = false;
    let mut i: usize = 0;
    let ghost all = csv_from(cs@, delim, 0, csv_begin());
    assert(rows.deep_view() =~= Seq::<Seq<Seq<char>>>::empty());
    assert(row.deep_view() =~= Seq::<Seq<char>>::empty());
    while i < cs.len()
        invariant
            i <= cs@.len(),
            all == csv_from(
                cs@,
                delim,
                i as int,
                CsvView { rows: rows.deep_view(), row: row.deep_view(), field: field@, quoted },
            ),
        decreases cs@.len() - i,
    {
        let c = cs[i];
        if quoted {
            if c == '"' {
                if i < cs.len() - 1 && cs[i + 1] == '"' {
                    field.push('"');
                    i = i + 1;
                } else {
                    quoted = false;
                }
            } else {
                field.push(c);
            }
        } else if c == '"' {
            quoted = true;
        } else if c == delim {
            push_deep(&mut row, field);
            field = String::new();
        } else if c == '\n' {
            push_deep(&mut row, field);
            field = String::new();
            push_deep(&mut rows, row);
            row = Vec::new();
            assert(row.deep_view() =~= Seq::<Seq<char>>::empty());
        } else if c != '\r' {
            field.push(c);
        }
        i = i + 1;
    }
    if !field.as_str().is_empty() || row.len() > 0 {
        push_deep(&mut row, field);
        push_deep(&mut rows, row);
    }
    rows
}

// ── reading CSV back ────────────────────────────────────────────────────────

/// Inside quotes, the doubled form of `f` from character `k` on reads as those
/// characters.
proof fn lemma_csv_inside(s: Seq<char>, delim: char, i: int, f: Seq<char>, k: int, st: CsvView)
    requires
        0 <= k <= f.len(),
        0 <= i,
        i + mapped_chars(f.skip(k), |c: char| doubled(c), (f.len() - k) as nat).len() < s.len(),
        s.subrange(
            i,
            i + mapped_chars(f.skip(k), |c: char| doubled(c), (f.len() - k) as nat).len(),
        ) == mapped_chars(f.skip(k), |c: char| doubled(c), (f.len() - k) as nat),
        s[i + mapped_chars(f.skip(k), |c: char| doubled(c), (f.len() - k) as nat).len()] == '"',
        st.quoted,
    ensures
        csv_from(s, delim, i, st) == csv_from(
            s,
            delim,
            i + mapped_chars(f.skip(k), |c: char| doubled(c), (f.len() - k) as nat).len(),
            CsvView { field: st.field + f.skip(k), ..st },
        ),
    decreases f.len() - k,
{
    let g = |c: char| doubled(c);
    let rest = mapped_chars(f.skip(k), g, (f.len() - k) as nat);
    if k == f.len() {
        assert(st.field + f.skip(k) =~= st.field);
    } else {
        let tail = mapped_chars(f.skip(k + 1), g, (f.len() - k - 1) as nat);
        lemma_mapped_head(f.skip(k), g);
        assert(f.skip(k).drop_first() =~= f.skip(k + 1));
        assert(rest == doubled(f[k]) + tail);
        let w = doubled(f[k]).len() as int;
        assert(s.subrange(i, i + rest.len())[0] == s[i]);
        assert(s.subrange(i + w, i + w + tail.len()) =~= s.subrange(i, i + rest.len()).subrange(
            w,
            w + tail.len(),
        ));
        assert(rest.subrange(w, w + tail.len()) =~= tail);
        let next = CsvView { field: st.field.push(f[k]), ..st };
        if f[k] == '"' {
            assert(s.subrange(i, i + rest.len())[1] == s[i + 1]);
            assert(s[i] == '"' && s[i + 1] == '"');
        } else {
            assert(s[i] == f[k]);
        }
        assert(csv_from(s, delim, i, st) == csv_from(s, delim, i + w, next));
        lemma_csv_inside(s, delim, i + w, f, k + 1, next);
        assert(next.field + f.skip(k + 1) =~= st.field + f.skip(k));
    }
}

/// The mapping of a text is that of its first character and then that of the rest.
pub proof fn lemma_mapped_head(s: Seq<char>, g: spec_fn(char) -> Seq<char>)
    requires
        s.len() > 0,
    ensures
        mapped_chars(s, g, s.len()) == g(s[0]) + mapped_chars(
            s.drop_first(),
            g,
            (s.len() - 1) as nat,
        ),
{
    lemma_mapped_head_n(s, g, s.len());
}

proof fn lemma_mapped_head_n(s: Seq<char>, g: spec_fn(char) -> Seq<char>, n: nat)
    requires
        0 < n <= s.len(),
    ensures
        mapped_chars(s, g, n) == g(s[0]) + mapped_chars(s.drop_first(), g, (n - 1) as nat),
    decreases n,
{
    if n == 1 {
        assert(mapped_chars(s, g, 0) + g(s[0]) =~= g(s[0]));
        assert(mapped_chars(s, g, 1) == mapped_chars(s, g, 0) + g(s[0]));
        assert(g(s[0]) + mapped_chars(s.drop_first(), g, 0) =~= g(s[0]));
    } else {
        lemma_mapped_head_n(s, g, (n - 1) as nat);
        assert(s.drop_first()[n - 2] == s[n - 1]);
        assert(mapped_chars(s, g, n) =~= g(s[0]) + mapped_chars(
            s.drop_first(),
            g,
            (n - 1) as nat,
        ));
    }
}

/// Outside quotes, plain characters read as themselves.
proof fn lemma_csv_plain(s: Seq<char>, delim: char, i: int, f: Seq<char>, k: int, st: CsvView)
    requires
        0 <= k <= f.len(),
        0 <= i,
        i + f.len() - k <= s.len(),
        s.subrange(i, i + f.len() - k) == f.skip(k),
        !needs_quotes(f, delim),
        !st.quoted,
    ensures
        csv_from(s, delim, i, st) == csv_from(
            s,
            delim,
            i + f.len() - k,
            CsvView { field: st.field + f.skip(k), ..st },
        ),
    decreases f.len() - k,
{
    if k == f.len() {
        assert(st.field + f.skip(k) =~= st.field);
    } else {
        assert(s[i] == s.subrange(i, i + f.len() - k)[0]);
        assert(s[i] == f[k]);
        assert(f.contains(f[k]));
        let next = CsvView { field: st.field.push(f[k]), ..st };
        assert(csv_from(s, delim, i, st) == csv_from(s, delim, i + 1, next));
        assert(s.subrange(i + 1, i + 1 + f.len() - (k + 1)) =~= s.subrange(
            i,
            i + f.len() - k,
        ).drop_first());
        assert(f.skip(k).drop_first() =~= f.skip(k + 1));
        lemma_csv_plain(s, delim, i + 1, f, k + 1, next);
        assert(next.field + f.skip(k + 1) =~= st.field + f.skip(k));
    }
}

/// A written field reads as the text it was written from.
proof fn lemma_csv_field(s: Seq<char>, delim: char, i: int, f: Seq<char>, st: CsvView)
    requires
        0 <= i,
        delim != '"',
        i + csv_quoted(f, delim).len() < s.len(),
        s.subrange(i, i + csv_quoted(f, delim).len()) == csv_quoted(f, delim),
        s[i + csv_quoted(f, delim).len()] != '"',
        !st.quoted,
        st.field == Seq::<char>::empty(),
    ensures
        csv_from(s, delim, i, st) == csv_from(
            s,
            delim,
            i + csv_quoted(f, delim).len(),
            CsvView { field: f, ..st },
        ),
{
    let q = csv_quoted(f, delim);
    if needs_quotes(f, delim) {
        let g = |c: char| doubled(c);
        let m = mapped_chars(f, g, f.len());
        assert(f.skip(0) =~= f);
        let part = s.subrange(i, i + q.len());
        assert(part[0] == s[i]);
        assert(s[i] == '"');
        assert(part[q.len() - 1] == s[i + q.len() - 1]);
        assert(s.subrange(i + 1, i + 1 + m.len()) =~= part.subrange(1, 1 + m.len() as int));
        assert(part.subrange(1, 1 + m.len() as int) =~= m);
        let inside = CsvView { quoted: true, ..st };
        lemma_csv_inside(s, delim, i + 1, f, 0, inside);
        assert(inside.field + f.skip(0) =~= f);
        let after = CsvView { field: f, quoted: true, ..st };
        let end = i + 1 + m.len() as int;
        assert(end + 1 == i + q.len());
        assert(csv_from(s, delim, end, after) == csv_from(
            s,
            delim,
            end + 1,
            CsvView { quoted: false, ..after },
        ));
    } else {
        assert(f.skip(0) =~= f);
        lemma_csv_plain(s, delim, i, f, 0, st);
        assert(st.field + f.skip(0) =~= f);
    }
}

/// The first `n` fields of a written row, read back, stand in the open row, with
/// the last of them still open.
proof fn lemma_csv_fields(
    s: Seq<char>,
    delim: char,
    i: int,
    texts: Seq<Seq<char>>,
    n: nat,
    st: CsvView,
)
    requires
        0 <= i,
        delim != '"' && delim != '\n' && delim != '\r',
        0 < n <= texts.len(),
        i + join(csv_fields(texts, delim).take(n as int), seq![delim]).len() < s.len(),
        s.subrange(i, i + join(csv_fields(texts, delim).take(n as int), seq![delim]).len()) == join(
            csv_fields(texts, delim).take(n as int),
            seq![delim],
        ),
        s[i + join(csv_fields(texts, delim).take(n as int), seq![delim]).len()] != '"',
        st.row == Seq::<Seq<char>>::empty(),
        st.field == Seq::<char>::empty(),
        !st.quoted,
    ensures
        csv_from(s, delim, i, st) == csv_from(
            s,
            delim,
            i + join(csv_fields(texts, delim).take(n as int), seq![delim]).len(),
            CsvView { row: texts.take(n - 1), field: texts[n - 1], ..st },
        ),
    decreases n,
{
    let fs = csv_fields(texts, delim);
    let parts = fs.take(n as int);
    let j = join(parts, seq![delim]);
    let q = csv_quoted(texts[n - 1], delim);
    assert(parts.last() == q);
    if n == 1 {
        assert(j == q);
        lemma_csv_field(s, delim, i, texts[0], st);
        assert(texts.take(0) =~= Seq::<Seq<char>>::empty());
    } else {
        assert(parts.drop_last() =~= fs.take(n - 1));
        let p = join(fs.take(n - 1), seq![delim]);
        assert(j == p + seq![delim] + q);
        let part = s.subrange(i, i + j.len());
        assert(s.subrange(i, i + p.len()) =~= part.subrange(0, p.len() as int));
        assert(part.subrange(0, p.len() as int) =~= p);
        assert(part[p.len() as int] == s[i + p.len()]);
        assert(s[i + p.len()] == delim);
        lemma_csv_fields(s, delim, i, texts, (n - 1) as nat, st);
        let before = CsvView { row: texts.take(n - 2), field: texts[n - 2], ..st };
        let at = CsvView { row: texts.take(n - 1), field: Seq::empty(), ..st };
        assert(texts.take(n - 2).push(texts[n - 2]) =~= texts.take(n - 1));
        let k = i + p.len() as int;
        assert(csv_from(s, delim, k, before) == csv_from(s, delim, k + 1, at));
        assert(s.subrange(k + 1, k + 1 + q.len()) =~= part.subrange(
            (p.len() + 1) as int,
            (p.len() + 1 + q.len()) as int,
        ));
        assert(part.subrange((p.len() + 1) as int, (p.len() + 1 + q.len()) as int) =~= q);
        lemma_csv_field(s, delim, k + 1, texts[n - 1], at);
    }
}

/// A written row reads back as one row.
proof fn lemma_csv_line(s: Seq<char>, delim: char, i: int, texts: Seq<Seq<char>>, st: CsvView)
    requires
        0 <= i,
        delim != '"' && delim != '\n' && delim != '\r',
        texts.len() > 0,
        i + csv_line(texts, delim).len() <= s.len(),
        s.subrange(i, i + csv_line(texts, delim).len()) == csv_line(texts, delim),
        st.row == Seq::<Seq<char>>::empty(),
        st.field == Seq::<char>::empty(),
        !st.quoted,
    ensures
        csv_from(s, delim, i, st) == csv_from(
            s,
            delim,
            i + csv_line(texts, delim).len(),
            CsvView { rows: st.rows.push(texts), ..st },
        ),
{
    let fs = csv_fields(texts, delim);
    let j = join(fs, seq![delim]);
    let line = csv_line(texts, delim);
    let part = s.subrange(i, i + line.len());
    assert(fs.take(texts.len() as int) =~= fs);
    assert(s.subrange(i, i + j.len()) =~= part.subrange(0, j.len() as int));
    assert(part.subrange(0, j.len() as int) =~= j);
    assert(part[j.len() as int] == s[i + j.len()]);
    assert(s[i + j.len()] == '\n');
    lemma_csv_fields(s, delim, i, texts, texts.len(), st);
    assert(texts.take(texts.len() - 1).push(texts[texts.len() - 1]) =~= texts);
}

proof fn lemma_csv_lines(s: Seq<char>, delim: char, rows: Seq<Seq<Seq<char>>>, n: nat)
    requires
        n <= rows.len(),
        delim != '"' && delim != '\n' && delim != '\r',
        forall|k: int| 0 <= k < rows.len() ==> (#[trigger] rows[k]).len() > 0,
        csv_lines(rows, delim, n).len() <= s.len(),
        s.subrange(0, csv_lines(rows, delim, n).len() as int) == csv_lines(rows, delim, n),
    ensures
        csv_from(s, delim, 0, csv_begin()) == csv_from(
            s,
            delim,
            csv_lines(rows, delim, n).len() as int,
            CsvView { rows: rows.take(n as int), ..csv_begin() },
        ),
    decreases n,
{
    if n == 0 {
        assert(rows.take(0) =~= Seq::<Seq<Seq<char>>>::empty());
    } else {
        let p = csv_lines(rows, delim, (n - 1) as nat);
        let line = csv_line(rows[n - 1], delim);
        let all = csv_lines(rows, delim, n);
        let part = s.subrange(0, all.len() as int);
        assert(s.subrange(0, p.len() as int) =~= part.subrange(0, p.len() as int));
        assert(part.subrange(0, p.len() as int) =~= p);
        lemma_csv_lines(s, delim, rows, (n - 1) as nat);
        assert(s.subrange(p.len() as int, (p.len() + line.len()) as int) =~= part.subrange(
            p.len() as int,
            (p.len() + line.len()) as int,
        ));
        assert(part.subrange(p.len() as int, (p.len() + line.len()) as int) =~= line);
        lemma_csv_line(
            s,
            delim,
            p.len() as int,
            rows[n - 1],
            CsvView { rows: rows.take(n - 1), ..csv_begin() },
        );
        assert(rows.take(n - 1).push(rows[n - 1]) =~= rows.take(n as int));
    }
}

/// Rows of texts written as CSV read back as the same rows, where each row has a
/// cell and the delimiter is neither a quote nor a line end.
pub proof fn csv_reads_back(rows: Seq<Seq<Seq<char>>>, delim: char)
    requires
        delim != '"' && delim != '\n' && delim != '\r',
        forall|k: int| 0 <= k < rows.len() ==> (#[trigger] rows[k]).len() > 0,
    ensures
        csv_rows(csv_lines(rows, delim, rows.len()), delim) == rows,
{
    let s = csv_lines(rows, delim, rows.len());
    assert(s.subrange(0, s.len() as int) =~= s);
    lemma_csv_lines(s, delim, rows, rows.len());
    assert(rows.take(rows.len() as int) =~= rows);
}

} // verus!
