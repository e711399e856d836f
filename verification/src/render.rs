//! A sheet rendered as a Markdown table, an HTML table and an aligned text table,
//! and Markdown tables read as rows.

use crate::deep::push_deep;
use crate::docfmt::{push_repeated, repeated};
use crate::formats::{escaped, xml_escape};
use crate::grid::{cell_at, Rows, RowsView};
use crate::reals::{render_cell, rendered_text};
use crate::tables::{count_columns, dashes, widest};
use crate::text::{
    back_space, chars_of, concat3, copy_text, decimal, is_space, join, join_texts, lines,
    mapped_chars, push_decimal, skip_space, slice_text, text_lines, trim, trim_text,
};
use crate::value::{Json, Value};
use vstd::prelude::*;

verus! {

// ── Markdown ────────────────────────────────────────────────────────────────

pub open spec fn md_cell_char(c: char) -> Seq<char> {
    if c == '|' {
        seq!['\\', '|']
    } else if c == '\n' || c == '\r' {
        seq![' ']
    } else {
        seq![c]
    }
}

/// A text as part of a pipe table: pipes escaped, line ends made spaces.
pub open spec fn md_text(s: Seq<char>) -> Seq<char> {
    mapped_chars(s, |c: char| md_cell_char(c), s.len())
}

/// A cell of a pipe table: pipes escaped, line ends made spaces, ends trimmed.
pub open spec fn md_cell(s: Seq<char>) -> Seq<char> {
    trim(md_text(s))
}

pub fn make_md_text(s: &str) -> (r: String)
    ensures
        r@ == md_text(s@),
{
    let cs = chars_of(s);
    let mut out = String::new();
    let mut i: usize = 0;
    let ghost f = |c: char| md_cell_char(c);
    while i < cs.len()
        invariant
            i <= cs@.len(),
            f == (|c: char| md_cell_char(c)),
            out@ == mapped_chars(cs@, f, i as nat),
        decreases cs@.len() - i,
    {
        let ghost before = out@;
        if cs[i] == '|' {
            out.push('\\');
            out.push('|');
        } else if cs[i] == '\n' || cs[i] == '\r' {
            out.push(' ');
        } else {
            out.push(cs[i]);
        }
        assert(out@ =~= before + f(cs@[i as int]));
        i = i + 1;
    }
    out
}

pub fn md_cell_escape(s: &str) -> (r: String)
    ensures
        r@ == md_cell(s@),
{
    trim_text(make_md_text(s).as_str())
}

/// Cells as a line of a pipe table.
pub open spec fn pipe_row(cells: Seq<Seq<char>>) -> Seq<char> {
    "| "@ + join(cells, " | "@) + " |"@
}

fn make_pipe_row(cells: &Vec<String>) -> (r: String)
    ensures
        r@ == pipe_row(cells.deep_view()),
{
    concat3("| ", join_texts(cells, " | ").as_str(), " |")
}

/// The cells of a row as a pipe table shows them.
pub open spec fn md_row_cells(row: Seq<Json>, ncols: nat) -> Seq<Seq<char>> {
    Seq::new(ncols, |c: int| md_cell(rendered_text(cell_at(row, c))))
}

/// The names of unnamed columns.
pub open spec fn numbered_columns(ncols: nat) -> Seq<Seq<char>> {
    Seq::new(ncols, |c: int| "Col"@ + decimal((c + 1) as nat))
}

/// The lines of a sheet as a pipe table: the header, the separator and the rows.
pub open spec fn md_table_lines(rows: RowsView, header: bool, ncols: nat) -> Seq<Seq<char>> {
    let named = header && rows.len() > 0;
    let body = if named {
        rows.skip(1)
    } else {
        rows
    };
    seq![
        pipe_row(
            if named {
                md_row_cells(rows[0], ncols)
            } else {
                numbered_columns(ncols)
            },
        ),
        pipe_row(dashes(ncols)),
    ] + Seq::new(body.len(), |i: int| pipe_row(md_row_cells(body[i], ncols)))
}

/// A sheet as a Markdown table.
pub open spec fn md_table(rows: RowsView, header: bool, ncols: nat) -> Seq<char> {
    join(md_table_lines(rows, header, ncols), "\n"@) + "\n"@
}

fn make_md_row(row: &Vec<Value>, ncols: usize) -> (r: String)
    ensures
        r@ == pipe_row(md_row_cells(row.deep_view(), ncols as nat)),
{
    let mut cells: Vec<String> = Vec::new();
    let mut c: usize = 0;
    while c < ncols
        invariant
            c <= ncols,
            cells.deep_view() == md_row_cells(row.deep_view(), c as nat),
        decreases ncols - c,
    {
        let t = if c < row.len() {
            assert(row.deep_view()[c as int] == row@[c as int].deep_view());
            render_cell(&row[c])
        } else {
            render_cell(&Value::Null)
        };
        push_deep(&mut cells, md_cell_escape(t.as_str()));
        c = c + 1;
        assert(cells.deep_view() =~= md_row_cells(row.deep_view(), c as nat));
    }
    make_pipe_row(&cells)
}

fn make_numbered(ncols: usize) -> (r: Vec<String>)
    ensures
        r.deep_view() == numbered_columns(ncols as nat),
{
    let mut out: Vec<String> = Vec::new();
    let mut i: usize = 0;
    while i < ncols
        invariant
            i <= ncols,
            out.deep_view() == numbered_columns(i as nat),
        decreases ncols - i,
    {
        let mut s = copy_text("Col");
        i = i + 1;
        push_decimal(&mut s, i as u64);
        push_deep(&mut out, s);
        assert(out.deep_view() =~= numbered_columns(i as nat));
    }
    out
}

fn make_dash_cells(ncols: usize) -> (r: Vec<String>)
    ensures
        r.deep_view() == dashes(ncols as nat),
{
    let mut out: Vec<String> = Vec::new();
    let mut i: usize = 0;
    while i < ncols
        invariant
            i <= ncols,
            out.deep_view() == dashes(i as nat),
        decreases ncols - i,
    {
        push_deep(&mut out, copy_text("---"));
        i = i + 1;
        assert(out.deep_view() =~= dashes(i as nat));
    }
    out
}

/// A sheet as a Markdown table, with its number of columns.
pub fn op_sheet_to_md(rows: &Rows, header: bool) -> (r: Result<(String, usize), String>)
    ensures
        match r {
            Ok(t) => t.1 > 0 && t.1 == widest(rows.deep_view(), rows@.len()) && t.0@ == md_table(
                rows.deep_view(),
                header,
                t.1 as nat,
            ),
            Err(e) => widest(rows.deep_view(), rows@.len()) == 0 && e@ == "sheet has no columns"@,
        },
{
    let ncols = count_columns(rows);
    if ncols == 0 {
        return Err(copy_text("sheet has no columns"));
    }
    let ghost rv = rows.deep_view();
    let ghost all = md_table_lines(rv, header, ncols as nat);
    let named = header && rows.len() > 0;
    let mut out: Vec<String> = Vec::new();
    if named {
        assert(rv[0] == rows@[0].deep_view());
        push_deep(&mut out, make_md_row(&rows[0], ncols));
    } else {
        push_deep(&mut out, make_pipe_row(&make_numbered(ncols)));
    }
    push_deep(&mut out, make_pipe_row(&make_dash_cells(ncols)));
    let start: usize = if named {
        1
    } else {
        0
    };
    let mut i: usize = start;
    assert(out.deep_view() =~= all.take(2));
    while i < rows.len()
        invariant
            start <= i <= rows@.len(),
            start == (if named {
                1int
            } else {
                0int
            }),
            named == (header && rv.len() > 0),
            rv == rows.deep_view(),
            all == md_table_lines(rv, header, ncols as nat),
            out.deep_view() == all.take(2 + i - start),
        decreases rows@.len() - i,
    {
        assert(rv[i as int] == rows@[i as int].deep_view());
        push_deep(&mut out, make_md_row(&rows[i], ncols));
        i = i + 1;
        assert(out.deep_view() =~= all.take(2 + i - start));
    }
    assert(all.take(2 + i - start) =~= all);
    let mut text = join_texts(&out, "\n");
    text.push_str("\n");
    Ok((text, ncols))
}

// ── reading Markdown tables ─────────────────────────────────────────────────

/// The cells of a pipe-table line from position `i` on, with `cur` before it: an
/// escaped pipe is part of a cell, any other pipe ends one.
pub open spec fn cells_from(s: Seq<char>, i: int, cur: Seq<char>) -> Seq<Seq<char>>
    decreases s.len() - i,
{
    if i < 0 || i >= s.len() {
        seq![trim(cur)]
    } else if s[i] == '\\' && i + 1 < s.len() && s[i + 1] == '|' {
        cells_from(s, i + 2, cur.push('|'))
    } else if s[i] == '|' {
        seq![trim(cur)] + cells_from(s, i + 1, Seq::empty())
    } else {
        cells_from(s, i + 1, cur.push(s[i]))
    }
}

/// Whether a text ends in a pipe that no backslash escapes.
pub open spec fn ends_in_pipe(s: Seq<char>) -> bool {
    s.len() > 0 && s.last() == '|' && !(s.len() > 1 && s[s.len() - 2] == '\\')
}

/// A line without one pipe at each end; an escaped pipe is part of a cell.
pub open spec fn without_ends(line: Seq<char>) -> Seq<char> {
    let t = trim(line);
    let u = if t.len() > 0 && t[0] == '|' {
        t.drop_first()
    } else {
        t
    };
    if ends_in_pipe(u) {
        u.drop_last()
    } else {
        u
    }
}

/// The trimmed cells of a pipe-table line.
pub open spec fn row_cells(line: Seq<char>) -> Seq<Seq<char>> {
    cells_from(without_ends(line), 0, Seq::empty())
}

pub fn split_md_row(line: &str) -> (r: Vec<String>)
    ensures
        r.deep_view() == row_cells(line@),
{
    let t = trim_text(line);
    let all = chars_of(t.as_str());
    let mut a: usize = 0;
    let mut b: usize = all.len();
    if a < b && all[a] == '|' {
        a = a + 1;
    }
    let ghost opened = all@.subrange(a as int, b as int);
    assert(opened =~= if all@.len() > 0 && all@[0] == '|' {
        all@.drop_first()
    } else {
        all@
    });
    if a < b && all[b - 1] == '|' && !(b - a > 1 && all[b - 2] == '\\') {
        assert(ends_in_pipe(opened));
        b = b - 1;
    }
    let ghost inner = without_ends(line@);
    assert(inner =~= all@.subrange(a as int, b as int));
    split_cells(slice_text(&all, a, b).as_str())
}

/// The trimmed cells of a line without the pipes at its ends.
pub(crate) fn split_cells(inner: &str) -> (r: Vec<String>)
    ensures
        r.deep_view() == cells_from(inner@, 0, Seq::empty()),
{
    let cs = chars_of(inner);
    let ghost inner = inner@;
    let mut out: Vec<String> = Vec::new();
    let mut cur = String::new();
    let mut i: usize = 0;
    let ghost want = cells_from(inner, 0, Seq::empty());
    assert(out.deep_view() + cells_from(inner, 0, cur@) =~= want);
    while i < cs.len()
        invariant
            i <= cs@.len(),
            cs@ == inner,
            out.deep_view() + cells_from(inner, i as int, cur@) == want,
        decreases cs@.len() - i,
    {
        if cs[i] == '\\' && i < cs.len() - 1 && cs[i + 1] == '|' {
            cur.push('|');
            i = i + 2;
        } else if cs[i] == '|' {
            let ghost before = out.deep_view();
            let ghost rest = cells_from(inner, i + 1, Seq::empty());
            let ghost c0 = cur@;
            push_deep(&mut out, trim_text(cur.as_str()));
            cur = String::new();
            assert(out.deep_view() + rest =~= before + (seq![trim(c0)] + rest));
            i = i + 1;
        } else {
            cur.push(cs[i]);
            i = i + 1;
        }
    }
    let ghost before = out.deep_view();
    push_deep(&mut out, trim_text(cur.as_str()));
    assert(out.deep_view() =~= before + seq![trim(cur@)]);
    out
}

// ── rows read back ──────────────────────────────────────────────────────────

/// A character as part of a cell: line ends are spaces.
pub open spec fn flat_char(c: char) -> char {
    if c == '\n' || c == '\r' {
        ' '
    } else {
        c
    }
}

/// A text on one line: line ends made spaces.
pub open spec fn flat_text(s: Seq<char>) -> Seq<char> {
    Seq::new(s.len(), |i: int| flat_char(s[i]))
}

/// A text on one line, ends trimmed.
pub open spec fn flat_cell(s: Seq<char>) -> Seq<char> {
    trim(flat_text(s))
}

/// A text with its pipes escaped.
pub open spec fn piped(t: Seq<char>) -> Seq<char>
    decreases t.len(),
{
    if t.len() == 0 {
        Seq::empty()
    } else if t[0] == '|' {
        seq!['\\', '|'] + piped(t.drop_first())
    } else {
        seq![t[0]] + piped(t.drop_first())
    }
}

proof fn lemma_piped_push(t: Seq<char>, c: char)
    ensures
        piped(t.push(c)) == piped(t) + (if c == '|' {
            seq!['\\', '|']
        } else {
            seq![c]
        }),
    decreases t.len(),
{
    let add = if c == '|' {
        seq!['\\', '|']
    } else {
        seq![c]
    };
    let u = t.push(c);
    if t.len() == 0 {
        assert(u.drop_first() =~= Seq::<char>::empty());
        assert(piped(u.drop_first()) =~= Seq::<char>::empty());
        assert(piped(u) =~= add);
        assert(piped(t) + add =~= add);
    } else {
        assert(u.drop_first() =~= t.drop_first().push(c));
        lemma_piped_push(t.drop_first(), c);
        assert(piped(u) =~= piped(t) + add);
    }
}

proof fn lemma_mapped_is_piped(s: Seq<char>, n: nat)
    requires
        n <= s.len(),
    ensures
        mapped_chars(s, |c: char| md_cell_char(c), n) == piped(
            Seq::new(n, |i: int| flat_char(s[i])),
        ),
    decreases n,
{
    let f = |c: char| md_cell_char(c);
    let flat = Seq::new(n, |i: int| flat_char(s[i]));
    if n == 0 {
        assert(flat =~= Seq::<char>::empty());
    } else {
        let before = Seq::new((n - 1) as nat, |i: int| flat_char(s[i]));
        lemma_mapped_is_piped(s, (n - 1) as nat);
        lemma_piped_push(before, flat_char(s[n - 1]));
        assert(flat =~= before.push(flat_char(s[n - 1])));
    }
}

pub proof fn lemma_skip_bounds(s: Seq<char>, i: int)
    requires
        0 <= i <= s.len(),
    ensures
        i <= skip_space(s, i) <= s.len(),
        skip_space(s, i) < s.len() ==> !is_space(s[skip_space(s, i)]),
        forall|k: int| i <= k < skip_space(s, i) ==> is_space(#[trigger] s[k]),
    decreases s.len() - i,
{
    if i < s.len() && is_space(s[i]) {
        lemma_skip_bounds(s, i + 1);
    }
}

pub proof fn lemma_back_ends(s: Seq<char>, i: int, j: int)
    requires
        0 <= i <= j <= s.len(),
    ensures
        i <= back_space(s, i, j) <= j,
        back_space(s, i, j) > i ==> !is_space(s[back_space(s, i, j) - 1]),
        forall|k: int| back_space(s, i, j) <= k < j ==> is_space(#[trigger] s[k]),
    decreases j - i,
{
    if i < j && is_space(s[j - 1]) {
        lemma_back_ends(s, i, j - 1);
    }
}

/// What `trim` leaves is what stands between spaces, and it starts and ends with none.
pub proof fn lemma_trim_is(s: Seq<char>, t: Seq<char>, a: int, b: int)
    requires
        0 <= a <= b <= s.len(),
        t == s.subrange(a, b),
        forall|k: int| 0 <= k < a ==> is_space(#[trigger] s[k]),
        forall|k: int| b <= k < s.len() ==> is_space(#[trigger] s[k]),
        a < b ==> !is_space(s[a]) && !is_space(s[b - 1]),
    ensures
        trim(s) == t,
{
    lemma_skip_bounds(s, 0);
    let x = skip_space(s, 0);
    lemma_back_ends(s, x, s.len() as int);
    let y = back_space(s, x, s.len() as int);
    if a < b {
        if x < a {
            assert(is_space(s[x]));
        }
        if x > a {
            assert(is_space(s[a]));
        }
        if y > b {
            assert(is_space(s[y - 1]));
        }
        if y < b {
            assert(is_space(s[b - 1]));
        }
    } else {
        if x < s.len() {
            if x < a {
                assert(is_space(s[x]));
            } else {
                assert(is_space(s[x]));
            }
        }
        assert(x == y);
    }
    assert(trim(s) =~= t);
}

proof fn lemma_piped_concat(a: Seq<char>, b: Seq<char>)
    ensures
        piped(a + b) == piped(a) + piped(b),
    decreases a.len(),
{
    if a.len() == 0 {
        assert(a + b =~= b);
        assert(piped(a) + piped(b) =~= piped(b));
    } else {
        lemma_piped_concat(a.drop_first(), b);
        assert((a + b).drop_first() =~= a.drop_first() + b);
        assert((a + b)[0] == a[0]);
        assert(piped(a + b) =~= piped(a) + piped(b));
    }
}

proof fn lemma_piped_spaces(s: Seq<char>)
    requires
        forall|k: int| 0 <= k < s.len() ==> is_space(#[trigger] s[k]),
    ensures
        piped(s) == s,
    decreases s.len(),
{
    if s.len() > 0 {
        assert(is_space(s[0]));
        assert forall|k: int| 0 <= k < s.drop_first().len() implies is_space(
            #[trigger] s.drop_first()[k],
        ) by {
            assert(s.drop_first()[k] == s[k + 1]);
        }
        lemma_piped_spaces(s.drop_first());
        assert(piped(s) =~= s);
    } else {
        assert(piped(s) =~= s);
    }
}

proof fn lemma_piped_ends(t: Seq<char>)
    requires
        t.len() > 0,
    ensures
        piped(t).len() > 0,
        piped(t).last() == t.last(),
        piped(t)[0] == if t[0] == '|' {
            '\\'
        } else {
            t[0]
        },
{
    assert(t =~= t.drop_last().push(t.last()));
    lemma_piped_push(t.drop_last(), t.last());
}

/// Escaping and trimming can change places.
proof fn lemma_trim_piped(s: Seq<char>)
    ensures
        trim(piped(s)) == piped(trim(s)),
{
    lemma_skip_bounds(s, 0);
    let x = skip_space(s, 0);
    lemma_back_ends(s, x, s.len() as int);
    let y = back_space(s, x, s.len() as int);
    let front = s.subrange(0, x);
    let t = s.subrange(x, y);
    let back = s.subrange(y, s.len() as int);
    assert(s =~= front + t + back);
    lemma_piped_concat(front + t, back);
    lemma_piped_concat(front, t);
    assert forall|k: int| 0 <= k < front.len() implies is_space(#[trigger] front[k]) by {
        assert(is_space(s[k]));
    }
    assert forall|k: int| 0 <= k < back.len() implies is_space(#[trigger] back[k]) by {
        assert(is_space(s[y + k]));
    }
    lemma_piped_spaces(front);
    lemma_piped_spaces(back);
    let p = piped(s);
    let u = piped(t);
    assert(p =~= front + u + back);
    let a = front.len() as int;
    let b = a + u.len();
    assert(p.subrange(a, b) =~= u);
    assert forall|k: int| 0 <= k < a implies is_space(#[trigger] p[k]) by {
        assert(p[k] == front[k]);
    }
    assert forall|k: int| b <= k < p.len() implies is_space(#[trigger] p[k]) by {
        assert(p[k] == back[k - b]);
    }
    if t.len() > 0 {
        lemma_piped_ends(t);
        assert(t[0] == s[x] && t.last() == s[y - 1]);
        assert(p[a] == u[0] && p[b - 1] == u.last());
    } else {
        assert(u =~= Seq::<char>::empty());
    }
    lemma_trim_is(p, u, a, b);
}

/// A cell of a pipe table is the text on one line, escaped.
proof fn lemma_md_cell(s: Seq<char>)
    ensures
        md_text(s) == piped(flat_text(s)),
        md_cell(s) == piped(flat_cell(s)),
{
    lemma_mapped_is_piped(s, s.len());
    lemma_trim_piped(flat_text(s));
}

/// Reading over an escaped text adds the text to the open cell.
proof fn lemma_read_piped(s: Seq<char>, i: int, t: Seq<char>, cur: Seq<char>)
    requires
        0 <= i,
        i + piped(t).len() < s.len(),
        s.subrange(i, i + piped(t).len()) == piped(t),
        s[i + piped(t).len()] != '|',
    ensures
        cells_from(s, i, cur) == cells_from(s, i + piped(t).len(), cur + t),
    decreases t.len(),
{
    let p = piped(t);
    if t.len() == 0 {
        assert(cur + t =~= cur);
    } else {
        let rest = t.drop_first();
        let w: int = if t[0] == '|' {
            2
        } else {
            1
        };
        assert(p.len() == w + piped(rest).len());
        assert forall|k: int| 0 <= k < p.len() implies s[i + k] == p[k] by {
            assert(s.subrange(i, i + p.len())[k] == s[i + k]);
        }
        assert(p[0] == s[i]);
        assert(s.subrange(i + w, i + w + piped(rest).len()) =~= piped(rest)) by {
            assert forall|k: int| 0 <= k < piped(rest).len() implies s[i + w + k] == piped(
                rest,
            )[k] by {
                assert(p[w + k] == piped(rest)[k]);
                assert(s[i + (w + k)] == p[w + k]);
            }
        }
        if t[0] == '|' {
            assert(s[i + 1] == p[1]);
        } else {
            if rest.len() > 0 {
                lemma_piped_ends(rest);
                assert(p[1] == piped(rest)[0]);
                assert(s[i + 1] == p[1]);
            } else {
                assert(piped(rest).len() == 0);
            }
            assert(s[i + 1] != '|');
        }
        lemma_read_piped(s, i + w, rest, cur.push(t[0]));
        assert(cur.push(t[0]) + rest =~= cur + t);
    }
}

/// The texts of cells, each on one line.
pub open spec fn flat_cells(cells: Seq<Seq<char>>) -> Seq<Seq<char>> {
    Seq::new(cells.len(), |i: int| flat_cell(cells[i]))
}

pub open spec fn escaped_cells(cells: Seq<Seq<char>>) -> Seq<Seq<char>> {
    Seq::new(cells.len(), |i: int| md_cell(cells[i]))
}

/// The texts of cells as parts of a pipe table.
pub open spec fn escaped_texts(cells: Seq<Seq<char>>) -> Seq<Seq<char>> {
    Seq::new(cells.len(), |i: int| md_text(cells[i]))
}

/// Texts with their pipes escaped.
pub open spec fn all_piped(texts: Seq<Seq<char>>) -> Seq<Seq<char>> {
    Seq::new(texts.len(), |i: int| piped(texts[i]))
}

/// Texts with their ends trimmed.
pub open spec fn all_trimmed(texts: Seq<Seq<char>>) -> Seq<Seq<char>> {
    Seq::new(texts.len(), |i: int| trim(texts[i]))
}

/// Cells, trimmed or not, are the escaped forms of texts that are the flat cells once they
/// are trimmed.
pub proof fn lemma_escaped_forms(cells: Seq<Seq<char>>)
    ensures
        escaped_cells(cells) == all_piped(flat_cells(cells)),
        all_trimmed(flat_cells(cells)) == flat_cells(cells),
        escaped_texts(cells) == all_piped(flat_texts(cells)),
        all_trimmed(flat_texts(cells)) == flat_cells(cells),
{
    assert forall|i: int| 0 <= i < cells.len() implies #[trigger] escaped_cells(cells)[i]
        == all_piped(flat_cells(cells))[i] by {
        lemma_md_cell(cells[i]);
    }
    assert forall|i: int| 0 <= i < cells.len() implies #[trigger] escaped_texts(cells)[i]
        == all_piped(flat_texts(cells))[i] by {
        lemma_md_cell(cells[i]);
    }
    assert forall|i: int| 0 <= i < cells.len() implies #[trigger] all_trimmed(
        flat_cells(cells),
    )[i] == flat_cells(cells)[i] by {
        lemma_trim_twice(flat_text(cells[i]));
    }
    assert(escaped_cells(cells) =~= all_piped(flat_cells(cells)));
    assert(all_trimmed(flat_cells(cells)) =~= flat_cells(cells));
    assert(escaped_texts(cells) =~= all_piped(flat_texts(cells)));
    assert(all_trimmed(flat_texts(cells)) =~= flat_cells(cells));
}

/// The texts of cells, each on one line, with their ends.
pub open spec fn flat_texts(cells: Seq<Seq<char>>) -> Seq<Seq<char>> {
    Seq::new(cells.len(), |i: int| flat_text(cells[i]))
}

/// What stands between the pipes at the ends of a line with cells from `k` on.
pub open spec fn row_rest(cells: Seq<Seq<char>>, k: int) -> Seq<char>
    decreases cells.len() - k,
{
    if k < 0 || k >= cells.len() {
        Seq::empty()
    } else if k == cells.len() - 1 {
        " "@ + cells[k] + " "@
    } else {
        " "@ + cells[k] + " |"@ + row_rest(cells, k + 1)
    }
}

pub proof fn lemma_join_is_rest(cells: Seq<Seq<char>>, k: int)
    requires
        0 <= k < cells.len(),
    ensures
        " "@ + join(cells.skip(k), " | "@) + " "@ == row_rest(cells, k),
    decreases cells.len() - k,
{
    let part = cells.skip(k);
    if k == cells.len() - 1 {
        assert(part.len() == 1);
        assert(part[0] == cells[k]);
    } else {
        lemma_join_is_rest(cells, k + 1);
        lemma_join_front(part, " | "@);
        assert(part.drop_first() =~= cells.skip(k + 1));
        reveal_strlit(" | ");
        reveal_strlit(" |");
        reveal_strlit(" ");
        assert(" | "@ =~= " |"@ + " "@);
        assert(" "@ + join(part, " | "@) + " "@ =~= " "@ + cells[k] + " |"@ + (" "@ + join(
            cells.skip(k + 1),
            " | "@,
        ) + " "@));
    }
}

pub proof fn lemma_join_front(parts: Seq<Seq<char>>, sep: Seq<char>)
    requires
        parts.len() >= 2,
    ensures
        join(parts, sep) == parts[0] + sep + join(parts.drop_first(), sep),
    decreases parts.len(),
{
    let rest = parts.drop_first();
    let front = parts.drop_last();
    if parts.len() == 2 {
        assert(front.len() == 1 && rest.len() == 1);
        assert(join(front, sep) == parts[0]);
        assert(join(rest, sep) == parts[1]);
    } else {
        lemma_join_front(front, sep);
        assert(front.drop_first() =~= rest.drop_last());
        assert(rest.last() == parts.last());
        assert(join(parts, sep) =~= parts[0] + sep + join(rest, sep));
    }
}

proof fn lemma_trim_twice(s: Seq<char>)
    ensures
        trim(trim(s)) == trim(s),
{
    lemma_skip_bounds(s, 0);
    let x = skip_space(s, 0);
    lemma_back_ends(s, x, s.len() as int);
    let y = back_space(s, x, s.len() as int);
    let t = trim(s);
    if t.len() > 0 {
        assert(t[0] == s[x] && t.last() == s[y - 1]);
    }
    assert(t.subrange(0, t.len() as int) =~= t);
    lemma_trim_is(t, t, 0, t.len() as int);
}

proof fn lemma_trim_padded(s: Seq<char>)
    ensures
        trim(seq![' '] + s + seq![' ']) == trim(s),
{
    lemma_skip_bounds(s, 0);
    let x = skip_space(s, 0);
    lemma_back_ends(s, x, s.len() as int);
    let y = back_space(s, x, s.len() as int);
    let w = seq![' '] + s + seq![' '];
    assert forall|k: int| 0 <= k < s.len() implies #[trigger] w[k + 1] == s[k] by {}
    assert(w.subrange(1 + x, 1 + y) =~= trim(s));
    assert forall|k: int| 0 <= k < 1 + x implies is_space(#[trigger] w[k]) by {
        if k > 0 {
            assert(w[(k - 1) + 1] == s[k - 1]);
            assert(is_space(s[k - 1]));
        }
    }
    assert forall|k: int| 1 + y <= k < w.len() implies is_space(#[trigger] w[k]) by {
        if k < w.len() - 1 {
            assert(w[(k - 1) + 1] == s[k - 1]);
            assert(is_space(s[k - 1]));
        }
    }
    if x < y {
        assert(w[x + 1] == s[x]);
        assert(w[(y - 1) + 1] == s[y - 1]);
    }
    lemma_trim_is(w, trim(s), 1 + x, 1 + y);
}

pub proof fn lemma_read_rest(s: Seq<char>, i: int, texts: Seq<Seq<char>>, k: int)
    requires
        0 <= k < texts.len(),
        0 <= i <= s.len(),
        s.skip(i) == row_rest(all_piped(texts), k),
    ensures
        cells_from(s, i, Seq::empty()) == all_trimmed(texts).skip(k),
    decreases texts.len() - k,
{
    reveal_strlit(" ");
    reveal_strlit(" |");
    let esc = all_piped(texts);
    let e = esc[k];
    let t = texts[k];
    let rest = s.skip(i);
    let last = k == texts.len() - 1;
    let tail = if last {
        " "@
    } else {
        " |"@ + row_rest(esc, k + 1)
    };
    assert(rest =~= " "@ + e + tail);
    assert forall|j: int| 0 <= j < rest.len() implies s[i + j] == rest[j] by {}
    let empty = Seq::<char>::empty();
    assert(s[i] == rest[0] && rest[0] == ' ');
    assert(cells_from(s, i, empty) == cells_from(s, i + 1, empty.push(' ')));
    let m = i + 1 + e.len();
    assert(s.subrange(i + 1, m) =~= e) by {
        assert forall|j: int| 0 <= j < e.len() implies s[i + 1 + j] == e[j] by {
            assert(s[i + (1 + j)] == rest[1 + j]);
        }
    }
    assert(rest[1 + e.len() as int] == tail[0]);
    assert(s[i + (1 + e.len())] == rest[1 + e.len() as int]);
    assert(s[m] == ' ');
    lemma_read_piped(s, i + 1, t, empty.push(' '));
    let cur = empty.push(' ') + t;
    assert(cells_from(s, m, cur) == cells_from(s, m + 1, cur.push(' ')));
    assert(cur.push(' ') =~= seq![' '] + t + seq![' ']);
    lemma_trim_padded(t);
    if last {
        assert(m + 1 == s.len());
        assert(all_trimmed(texts).skip(k) =~= seq![trim(t)]);
    } else {
        assert(rest[2 + e.len() as int] == tail[1]);
        assert(s[i + (2 + e.len())] == rest[2 + e.len() as int]);
        assert(s[m + 1] == '|');
        let more = row_rest(esc, k + 1);
        assert(s.skip(m + 2) =~= more) by {
            let left = s.skip(m + 2);
            assert(left.len() == more.len());
            assert forall|j: int| 0 <= j < more.len() implies #[trigger] left[j] == more[j] by {
                assert(rest[3 + e.len() + j] == tail[2 + j]);
                assert(s[i + (3 + e.len() + j)] == rest[3 + e.len() + j]);
            }
        }
        lemma_read_rest(s, m + 2, texts, k + 1);
        assert(all_trimmed(texts).skip(k) =~= seq![trim(t)] + all_trimmed(texts).skip(k + 1));
    }
}

/// A line of a pipe table reads back as the cells it was made of, each on one line: pipes
/// and backslashes in them are kept.
pub proof fn table_rows_read_back(cells: Seq<Seq<char>>)
    requires
        cells.len() > 0,
    ensures
        row_cells(pipe_row(escaped_cells(cells))) == flat_cells(cells),
{
    reveal_strlit("| ");
    reveal_strlit(" |");
    reveal_strlit(" ");
    let esc = escaped_cells(cells);
    let line = pipe_row(esc);
    let inner = row_rest(esc, 0);
    lemma_join_is_rest(esc, 0);
    assert(esc.skip(0) =~= esc);
    assert(line =~= seq!['|'] + inner + seq!['|']);
    assert(line.subrange(0, line.len() as int) =~= line);
    lemma_trim_is(line, line, 0, line.len() as int);
    assert(line.drop_first() =~= inner + seq!['|']);
    let u = line.drop_first();
    assert(inner.last() == ' ') by {
        assert(inner == " "@ + join(esc, " | "@) + " "@);
    }
    assert(u[u.len() - 2] == inner.last());
    assert(ends_in_pipe(u));
    assert(u.drop_last() =~= inner);
    assert(without_ends(line) == inner);
    assert(inner.skip(0) =~= inner);
    lemma_escaped_forms(cells);
    lemma_read_rest(inner, 0, flat_cells(cells), 0);
    assert(flat_cells(cells).skip(0) =~= flat_cells(cells));
}

/// Whether a text is made of dashes, one at least, with a colon before or behind them or
/// none.
pub open spec fn is_rule_cell(c: Seq<char>) -> bool {
    let t = trim(c);
    let a: int = if t.len() > 0 && t[0] == ':' {
        1
    } else {
        0
    };
    let b: int = if t.len() > a && t.last() == ':' {
        t.len() - 1
    } else {
        t.len() as int
    };
    a < b && forall|i: int| a <= i < b ==> #[trigger] t[i] == '-'
}

/// Whether a row separates the header of a pipe table from its body.
pub open spec fn is_rule_row(cells: Seq<Seq<char>>) -> bool {
    cells.len() > 0 && forall|i: int| 0 <= i < cells.len() ==> is_rule_cell(#[trigger] cells[i])
}

fn rule_cell(c: &str) -> (r: bool)
    ensures
        r == is_rule_cell(c@),
{
    let t = trim_text(c);
    let cs = chars_of(t.as_str());
    let a: usize = if cs.len() > 0 && cs[0] == ':' {
        1
    } else {
        0
    };
    let b: usize = if cs.len() > a && cs[cs.len() - 1] == ':' {
        cs.len() - 1
    } else {
        cs.len()
    };
    let mut i: usize = a;
    while i < b
        invariant
            a <= i,
            i <= b || b <= a,
            b <= cs@.len(),
            cs@ == trim(c@),
            a == (if cs@.len() > 0 && cs@[0] == ':' {
                1int
            } else {
                0int
            }),
            b == (if cs@.len() > a && cs@.last() == ':' {
                cs@.len() - 1
            } else {
                cs@.len() as int
            }),
            forall|k: int| a <= k < i ==> #[trigger] cs@[k] == '-',
        decreases b - i,
    {
        if cs[i] != '-' {
            return false;
        }
        i = i + 1;
    }
    a < b
}

pub fn is_md_separator(cells: &Vec<String>) -> (r: bool)
    ensures
        r == is_rule_row(cells.deep_view()),
{
    if cells.len() == 0 {
        return false;
    }
    let mut i: usize = 0;
    while i < cells.len()
        invariant
            i <= cells@.len(),
            cells@.len() > 0,
            forall|k: int| 0 <= k < i ==> is_rule_cell(#[trigger] cells.deep_view()[k]),
        decreases cells@.len() - i,
    {
        assert(cells.deep_view()[i as int] == cells@[i as int]@);
        if !rule_cell(cells[i].as_str()) {
            return false;
        }
        i = i + 1;
    }
    true
}

pub open spec fn is_table_line(l: Seq<char>) -> bool {
    trim(l).len() > 0 && trim(l)[0] == '|'
}

/// The first line at or after `i` that starts with a pipe, or the number of lines.
pub open spec fn table_begin(ls: Seq<Seq<char>>, i: int) -> int
    decreases ls.len() - i,
{
    if 0 <= i < ls.len() && !is_table_line(ls[i]) {
        table_begin(ls, i + 1)
    } else {
        i
    }
}

/// The first line at or after `i` that does not start with a pipe, or the number of
/// lines.
pub open spec fn table_stop(ls: Seq<Seq<char>>, i: int) -> int
    decreases ls.len() - i,
{
    if 0 <= i < ls.len() && is_table_line(ls[i]) {
        table_stop(ls, i + 1)
    } else {
        i
    }
}

/// The rows of lines `a` to `b`, without separators.
pub open spec fn table_cells(ls: Seq<Seq<char>>, a: int, b: int) -> Seq<Seq<Seq<char>>>
    decreases b - a,
{
    if b <= a {
        Seq::empty()
    } else {
        let before = table_cells(ls, a, b - 1);
        let cells = row_cells(ls[b - 1]);
        if is_rule_row(cells) {
            before
        } else {
            before.push(cells)
        }
    }
}

/// The rows of the first table of a Markdown text.
pub open spec fn first_table(text: Seq<char>) -> Option<Seq<Seq<Seq<char>>>> {
    let ls = lines(text);
    let a = table_begin(ls, 0);
    if a >= ls.len() {
        None
    } else {
        Some(table_cells(ls, a, table_stop(ls, a)))
    }
}

fn starts_with_pipe(l: &str) -> (r: bool)
    ensures
        r == is_table_line(l@),
{
    let t = trim_text(l);
    let cs = chars_of(t.as_str());
    cs.len() > 0 && cs[0] == '|'
}

/// The rows of the first table of a Markdown text.
pub fn op_md_to_sheet(text: &str) -> (r: Result<Vec<Vec<String>>, String>)
    ensures
        match r {
            Ok(rows) => first_table(text@) == Some(rows.deep_view()),
            Err(e) => first_table(text@) is None && e@
                == "no Markdown table found (no leading-pipe rows)"@,
        },
{
    let ls = text_lines(text);
    let ghost lv = ls.deep_view();
    let mut a: usize = 0;
    while a < ls.len() && !starts_with_pipe(ls[a].as_str())
        invariant
            a <= ls@.len(),
            lv == ls.deep_view(),
            table_begin(lv, 0) == table_begin(lv, a as int),
        decreases ls@.len() - a,
    {
        assert(lv[a as int] == ls@[a as int]@);
        a = a + 1;
    }
    proof {
        if a < ls@.len() {
            assert(lv[a as int] == ls@[a as int]@);
        }
    }
    if a >= ls.len() {
        return Err(copy_text("no Markdown table found (no leading-pipe rows)"));
    }
    let mut out: Vec<Vec<String>> = Vec::new();
    let mut b: usize = a;
    assert(out.deep_view() =~= Seq::<Seq<Seq<char>>>::empty());
    while b < ls.len() && starts_with_pipe(ls[b].as_str())
        invariant
            a <= b <= ls@.len(),
            lv == ls.deep_view(),
            table_stop(lv, a as int) == table_stop(lv, b as int),
            out.deep_view() == table_cells(lv, a as int, b as int),
        decreases ls@.len() - b,
    {
        assert(lv[b as int] == ls@[b as int]@);
        let cells = split_md_row(ls[b].as_str());
        if !is_md_separator(&cells) {
            push_deep(&mut out, cells);
        }
        b = b + 1;
    }
    proof {
        if b < ls@.len() {
            assert(lv[b as int] == ls@[b as int]@);
        }
    }
    Ok(out)
}

// ── HTML ────────────────────────────────────────────────────────────────────

/// The first `n` cells of a row of `ncols` in elements.
pub open spec fn element_cells(row: Seq<Json>, tag: Seq<char>, n: nat) -> Seq<char>
    decreases n,
{
    if n == 0 {
        Seq::empty()
    } else {
        element_cells(row, tag, (n - 1) as nat) + "<"@ + tag + ">"@ + escaped(
            rendered_text(cell_at(row, n - 1)),
        ) + "</"@ + tag + ">"@
    }
}

/// A table row.
pub open spec fn element_row(row: Seq<Json>, tag: Seq<char>, ncols: nat) -> Seq<char> {
    "    <tr>"@ + element_cells(row, tag, ncols) + "</tr>"@
}

/// Rows `from` up to `to` as table rows, each on a line.
pub open spec fn element_rows(rows: RowsView, from: int, to: int, ncols: nat) -> Seq<char>
    decreases to - from,
{
    if to <= from {
        Seq::empty()
    } else {
        element_rows(rows, from, to - 1, ncols) + element_row(rows[to - 1], "td"@, ncols) + "\n"@
    }
}

/// A sheet as an HTML table with an optional title.
pub open spec fn html_fragment(
    rows: RowsView,
    header: bool,
    title: Option<Seq<char>>,
    ncols: nat,
) -> Seq<char> {
    let named = header && rows.len() > 0;
    (match title {
        Some(t) => "<h2>"@ + escaped(t) + "</h2>\n"@,
        None => Seq::empty(),
    }) + "<table>\n"@ + (if named {
        "  <thead>\n"@ + element_row(rows[0], "th"@, ncols) + "\n  </thead>\n"@
    } else {
        Seq::empty()
    }) + "  <tbody>\n"@ + element_rows(
        rows,
        if named {
            1
        } else {
            0
        },
        rows.len() as int,
        ncols,
    ) + "  </tbody>\n</table>\n"@
}

/// A sheet as an HTML table, in a complete document where `full` is set.
pub open spec fn html_page(
    rows: RowsView,
    header: bool,
    full: bool,
    title: Option<Seq<char>>,
    ncols: nat,
) -> Seq<char> {
    if full {
        "<!DOCTYPE html>\n<html>\n<head><meta charset=\"utf-8\">\n<style>table{border-collapse:collapse}th,td{border:1px solid #ccc;padding:4px 8px}</style>\n</head>\n<body>\n"@
            + html_fragment(rows, header, title, ncols) + "</body>\n</html>\n"@
    } else {
        html_fragment(rows, header, title, ncols)
    }
}

fn make_element_row(row: &Vec<Value>, tag: &str, ncols: usize) -> (r: String)
    ensures
        r@ == element_row(row.deep_view(), tag@, ncols as nat),
{
    let mut cells = String::new();
    let mut c: usize = 0;
    assert(cells@ =~= element_cells(row.deep_view(), tag@, 0));
    while c < ncols
        invariant
            c <= ncols,
            cells@ == element_cells(row.deep_view(), tag@, c as nat),
        decreases ncols - c,
    {
        let t = if c < row.len() {
            assert(row.deep_view()[c as int] == row@[c as int].deep_view());
            render_cell(&row[c])
        } else {
            render_cell(&Value::Null)
        };
        cells.push_str("<");
        cells.push_str(tag);
        cells.push_str(">");
        cells.push_str(xml_escape(t.as_str()).as_str());
        cells.push_str("</");
        cells.push_str(tag);
        cells.push_str(">");
        c = c + 1;
    }
    concat3("    <tr>", cells.as_str(), "</tr>")
}

/// A sheet as an HTML table, with its number of columns.
pub fn op_sheet_to_html(rows: &Rows, header: bool, full: bool, title: Option<&str>) -> (r: (
    String,
    usize,
))
    ensures
        r.1 == widest(rows.deep_view(), rows@.len()),
        r.0@ == html_page(
            rows.deep_view(),
            header,
            full,
            match title {
                Some(t) => Some(t@),
                None => None,
            },
            r.1 as nat,
        ),
{
    let ncols = count_columns(rows);
    let ghost rv = rows.deep_view();
    let mut body = String::new();
    match title {
        Some(t) => {
            body.push_str("<h2>");
            body.push_str(xml_escape(t).as_str());
            body.push_str("</h2>\n");
        },
        None => {},
    }
    let ghost title_v = match title {
        Some(t) => "<h2>"@ + escaped(t@) + "</h2>\n"@,
        None => Seq::empty(),
    };
    assert(body@ =~= title_v);
    body.push_str("<table>\n");
    let named = header && rows.len() > 0;
    let ghost head_v = if named {
        "  <thead>\n"@ + element_row(rv[0], "th"@, ncols as nat) + "\n  </thead>\n"@
    } else {
        Seq::empty()
    };
    let ghost before = body@;
    if named {
        assert(rv[0] == rows@[0].deep_view());
        body.push_str("  <thead>\n");
        body.push_str(make_element_row(&rows[0], "th", ncols).as_str());
        body.push_str("\n  </thead>\n");
    }
    assert(body@ =~= before + head_v);
    body.push_str("  <tbody>\n");
    let start: usize = if named {
        1
    } else {
        0
    };
    let mut i: usize = start;
    let ghost front = body@;
    assert(body@ =~= front + element_rows(rv, start as int, i as int, ncols as nat));
    while i < rows.len()
        invariant
            start <= i <= rows@.len(),
            rv == rows.deep_view(),
            body@ == front + element_rows(rv, start as int, i as int, ncols as nat),
        decreases rows@.len() - i,
    {
        assert(rv[i as int] == rows@[i as int].deep_view());
        body.push_str(make_element_row(&rows[i], "td", ncols).as_str());
        body.push_str("\n");
        i = i + 1;
        assert(body@ =~= front + element_rows(rv, start as int, i as int, ncols as nat));
    }
    body.push_str("  </tbody>\n</table>\n");
    if full {
        let html = concat3(
            "<!DOCTYPE html>\n<html>\n<head><meta charset=\"utf-8\">\n<style>table{border-collapse:collapse}th,td{border:1px solid #ccc;padding:4px 8px}</style>\n</head>\n<body>\n",
            body.as_str(),
            "</body>\n</html>\n",
        );
        (html, ncols)
    } else {
        (body, ncols)
    }
}

// ── aligned text ────────────────────────────────────────────────────────────

/// The text of each cell of a grid of `ncols` columns.
pub open spec fn cell_grid(rows: RowsView, ncols: nat) -> Seq<Seq<Seq<char>>> {
    Seq::new(
        rows.len(),
        |i: int| Seq::new(ncols, |c: int| rendered_text(cell_at(rows[i], c))),
    )
}

/// The length of the longest text in column `c` of the first `n` rows.
pub open spec fn column_width(grid: Seq<Seq<Seq<char>>>, c: int, n: nat) -> nat
    decreases n,
{
    if n == 0 || n > grid.len() {
        0
    } else {
        let w = column_width(grid, c, (n - 1) as nat);
        if grid[n - 1][c].len() > w {
            grid[n - 1][c].len()
        } else {
            w
        }
    }
}

pub open spec fn column_widths(grid: Seq<Seq<Seq<char>>>, ncols: nat) -> Seq<nat> {
    Seq::new(ncols, |c: int| column_width(grid, c, grid.len()))
}

/// A text with spaces after it up to a width.
pub open spec fn padded(s: Seq<char>, w: nat) -> Seq<char> {
    s + repeated(
        " "@,
        if s.len() < w {
            (w - s.len()) as nat
        } else {
            0
        },
    )
}

pub open spec fn padded_row(row: Seq<Seq<char>>, widths: Seq<nat>) -> Seq<Seq<char>> {
    Seq::new(row.len(), |c: int| padded(row[c], widths[c]))
}

/// A line of the grid.
pub open spec fn grid_line(row: Seq<Seq<char>>, widths: Seq<nat>, border: bool) -> Seq<char> {
    if border {
        "| "@ + join(padded_row(row, widths), " | "@) + " |"@
    } else {
        join(padded_row(row, widths), "  "@)
    }
}

/// The line that separates rows.
pub open spec fn grid_rule(widths: Seq<nat>, border: bool) -> Seq<char> {
    if border {
        "+"@ + join(
            Seq::new(widths.len(), |c: int| repeated("-"@, widths[c] + 2)),
            "+"@,
        ) + "+"@
    } else {
        join(Seq::new(widths.len(), |c: int| repeated("-"@, widths[c])), "  "@)
    }
}

/// The first `n` rows as lines, with the rule below the first row where it is a header.
pub open spec fn grid_lines(
    grid: Seq<Seq<Seq<char>>>,
    widths: Seq<nat>,
    header: bool,
    border: bool,
    n: nat,
) -> Seq<Seq<char>>
    decreases n,
{
    if n == 0 || n > grid.len() {
        Seq::empty()
    } else {
        let before = grid_lines(grid, widths, header, border, (n - 1) as nat).push(
            grid_line(grid[n - 1], widths, border),
        );
        if n == 1 && header {
            before.push(grid_rule(widths, border))
        } else {
            before
        }
    }
}

/// A sheet as an aligned text table, with a grid drawn around it where `border` is set.
pub open spec fn text_table(rows: RowsView, header: bool, border: bool, ncols: nat) -> Seq<char> {
    let grid = cell_grid(rows, ncols);
    let widths = column_widths(grid, ncols);
    let body = grid_lines(grid, widths, header, border, grid.len());
    let all = if border {
        seq![grid_rule(widths, true)] + body + seq![grid_rule(widths, true)]
    } else {
        body
    };
    join(all, "\n"@) + "\n"@
}

fn make_grid(rows: &Rows, ncols: usize) -> (r: Vec<Vec<String>>)
    ensures
        r.deep_view() == cell_grid(rows.deep_view(), ncols as nat),
        r@.len() == rows@.len(),
        forall|i: int| 0 <= i < r@.len() ==> (#[trigger] r@[i])@.len() == ncols,
{
    let ghost rv = rows.deep_view();
    let ghost all = cell_grid(rv, ncols as nat);
    let mut out: Vec<Vec<String>> = Vec::new();
    let mut i: usize = 0;
    while i < rows.len()
        invariant
            i <= rows@.len(),
            rv == rows.deep_view(),
            all == cell_grid(rv, ncols as nat),
            out@.len() == i,
            forall|k: int| 0 <= k < i ==> (#[trigger] out@[k])@.len() == ncols,
            out.deep_view() == all.take(i as int),
        decreases rows@.len() - i,
    {
        assert(rv[i as int] == rows@[i as int].deep_view());
        let mut line: Vec<String> = Vec::new();
        let ghost want = all[i as int];
        let mut c: usize = 0;
        while c < ncols
            invariant
                c <= ncols,
                i < rows@.len(),
                rv == rows.deep_view(),
                rv[i as int] == rows@[i as int].deep_view(),
                want == Seq::new(
                    ncols as nat,
                    |c: int| rendered_text(cell_at(rv[i as int], c)),
                ),
                line@.len() == c,
                line.deep_view() == want.take(c as int),
            decreases ncols - c,
        {
            let t = if c < rows[i].len() {
                assert(rv[i as int][c as int] == rows@[i as int]@[c as int].deep_view());
                render_cell(&rows[i][c])
            } else {
                render_cell(&Value::Null)
            };
            push_deep(&mut line, t);
            c = c + 1;
            assert(line.deep_view() =~= want.take(c as int));
        }
        assert(want.take(c as int) =~= want);
        push_deep(&mut out, line);
        assert(out@[i as int]@.len() == ncols) by {
            assert(out.deep_view()[i as int].len() == out@[i as int]@.len());
        }
        assert forall|k: int| 0 <= k < i + 1 implies (#[trigger] out@[k])@.len() == ncols by {
            assert(out.deep_view()[k] == out@[k].deep_view());
            assert(out.deep_view()[k] == all[k]);
        }
        i = i + 1;
        assert(out.deep_view() =~= all.take(i as int));
    }
    assert(all.take(i as int) =~= all);
    out
}

pub open spec fn as_nats(v: Seq<usize>) -> Seq<nat> {
    Seq::new(v.len(), |i: int| v[i] as nat)
}

fn measure(grid: &Vec<Vec<String>>, ncols: usize) -> (r: Vec<usize>)
    requires
        forall|i: int| 0 <= i < grid@.len() ==> (#[trigger] grid@[i])@.len() == ncols,
    ensures
        as_nats(r@) == column_widths(grid.deep_view(), ncols as nat),
        r@.len() == ncols,
{
    let ghost gv = grid.deep_view();
    let mut out: Vec<usize> = Vec::new();
    let mut c: usize = 0;
    while c < ncols
        invariant
            c <= ncols,
            gv == grid.deep_view(),
            forall|i: int| 0 <= i < grid@.len() ==> (#[trigger] grid@[i])@.len() == ncols,
            out@.len() == c,
            forall|k: int| 0 <= k < c ==> #[trigger] out@[k] == column_width(gv, k, gv.len()),
        decreases ncols - c,
    {
        let mut w: usize = 0;
        let mut i: usize = 0;
        while i < grid.len()
            invariant
                i <= grid@.len(),
                c < ncols,
                gv == grid.deep_view(),
                forall|i: int| 0 <= i < grid@.len() ==> (#[trigger] grid@[i])@.len() == ncols,
                w == column_width(gv, c as int, i as nat),
            decreases grid@.len() - i,
        {
            assert(gv[i as int] == grid@[i as int].deep_view());
            assert(gv[i as int][c as int] == grid@[i as int]@[c as int]@);
            let k = chars_of(grid[i][c].as_str()).len();
            if k > w {
                w = k;
            }
            i = i + 1;
        }
        out.push(w);
        c = c + 1;
    }
    assert(as_nats(out@) =~= column_widths(gv, ncols as nat));
    out
}

fn make_grid_line(row: &Vec<String>, widths: &Vec<usize>, border: bool) -> (r: String)
    requires
        row@.len() == widths@.len(),
    ensures
        r@ == grid_line(row.deep_view(), as_nats(widths@), border),
{
    let ghost wv = as_nats(widths@);
    let ghost all = padded_row(row.deep_view(), wv);
    let mut cells: Vec<String> = Vec::new();
    let mut c: usize = 0;
    while c < row.len()
        invariant
            c <= row@.len(),
            row@.len() == widths@.len(),
            wv == as_nats(widths@),
            all == padded_row(row.deep_view(), wv),
            cells.deep_view() == all.take(c as int),
        decreases row@.len() - c,
    {
        assert(row.deep_view()[c as int] == row@[c as int]@);
        let k = chars_of(row[c].as_str()).len();
        let mut s = row[c].clone();
        if k < widths[c] {
            push_repeated(&mut s, " ", widths[c] - k);
        } else {
            assert(s@ =~= s@ + repeated(" "@, 0));
        }
        push_deep(&mut cells, s);
        c = c + 1;
        assert(cells.deep_view() =~= all.take(c as int));
    }
    assert(all.take(c as int) =~= all);
    if border {
        concat3("| ", join_texts(&cells, " | ").as_str(), " |")
    } else {
        join_texts(&cells, "  ")
    }
}

fn make_grid_rule(widths: &Vec<usize>, border: bool) -> (r: String)
    ensures
        r@ == grid_rule(as_nats(widths@), border),
{
    let ghost wv = as_nats(widths@);
    let ghost all = Seq::new(
        wv.len(),
        |c: int|
            repeated(
                "-"@,
                if border {
                    wv[c] + 2
                } else {
                    wv[c]
                },
            ),
    );
    let mut cells: Vec<String> = Vec::new();
    let mut c: usize = 0;
    while c < widths.len()
        invariant
            c <= widths@.len(),
            wv == as_nats(widths@),
            all == Seq::new(
                wv.len(),
                |c: int|
                    repeated(
                        "-"@,
                        if border {
                            wv[c] + 2
                        } else {
                            wv[c]
                        },
                    ),
            ),
            cells.deep_view() == all.take(c as int),
        decreases widths@.len() - c,
    {
        let mut s = String::new();
        push_repeated(&mut s, "-", widths[c]);
        assert(s@ =~= repeated("-"@, wv[c as int]));
        if border {
            s.push_str("-");
            s.push_str("-");
            assert(repeated("-"@, wv[c as int] + 2) == repeated("-"@, wv[c as int]) + "-"@ + "-"@) by {
                reveal_with_fuel(repeated, 3);
            }
        }
        push_deep(&mut cells, s);
        c = c + 1;
        assert(cells.deep_view() =~= all.take(c as int));
    }
    assert(all.take(c as int) =~= all);
    if border {
        assert(all =~= Seq::new(wv.len(), |c: int| repeated("-"@, wv[c] + 2)));
        concat3("+", join_texts(&cells, "+").as_str(), "+")
    } else {
        assert(all =~= Seq::new(wv.len(), |c: int| repeated("-"@, wv[c])));
        join_texts(&cells, "  ")
    }
}

/// A sheet as an aligned text table, with its number of columns.
pub fn op_sheet_to_text(rows: &Rows, header: bool, border: bool) -> (r: (String, usize))
    ensures
        r.1 == widest(rows.deep_view(), rows@.len()),
        r.0@ == text_table(rows.deep_view(), header, border, r.1 as nat),
{
    let ncols = count_columns(rows);
    let grid = make_grid(rows, ncols);
    let widths = measure(&grid, ncols);
    let ghost gv = grid.deep_view();
    let ghost wv = as_nats(widths@);
    let mut out: Vec<String> = Vec::new();
    if border {
        push_deep(&mut out, make_grid_rule(&widths, true));
    }
    let ghost front = out.deep_view();
    let mut i: usize = 0;
    assert(out.deep_view() =~= front + grid_lines(gv, wv, header, border, 0));
    while i < grid.len()
        invariant
            i <= grid@.len(),
            gv == grid.deep_view(),
            wv == as_nats(widths@),
            widths@.len() == ncols,
            forall|k: int| 0 <= k < grid@.len() ==> (#[trigger] grid@[k])@.len() == ncols,
            out.deep_view() == front + grid_lines(gv, wv, header, border, i as nat),
        decreases grid@.len() - i,
    {
        assert(gv[i as int] == grid@[i as int].deep_view());
        push_deep(&mut out, make_grid_line(&grid[i], &widths, border));
        if i == 0 && header {
            push_deep(&mut out, make_grid_rule(&widths, border));
        }
        i = i + 1;
        assert(out.deep_view() =~= front + grid_lines(gv, wv, header, border, i as nat));
    }
    if border {
        push_deep(&mut out, make_grid_rule(&widths, true));
    }
    let ghost body = grid_lines(gv, wv, header, border, gv.len());
    let ghost all = if border {
        seq![grid_rule(wv, true)] + body + seq![grid_rule(wv, true)]
    } else {
        body
    };
    assert(out.deep_view() =~= all);
    let mut text = join_texts(&out, "\n");
    text.push_str("\n");
    (text, ncols)
}

// ── what tables show ────────────────────────────────────────────────────────

/// The texts of a row as a table shows them, each on one line.
pub open spec fn shown_row(row: Seq<Json>, ncols: nat) -> Seq<Seq<char>> {
    Seq::new(
        ncols,
        |c: int|
            flat_cell(
                rendered_text(
                    if c < row.len() {
                        row[c]
                    } else {
                        Json::Null
                    },
                ),
            ),
    )
}

proof fn lemma_shown_row(row: Seq<Json>, ncols: nat)
    requires
        ncols > 0,
    ensures
        row_cells(pipe_row(md_row_cells(row, ncols))) == shown_row(row, ncols),
{
    let texts = Seq::new(ncols, |c: int| rendered_text(cell_at(row, c)));
    assert(md_row_cells(row, ncols) =~= escaped_cells(texts));
    table_rows_read_back(texts);
    assert(flat_cells(texts) =~= shown_row(row, ncols));
}

/// The lines of a Markdown table read back as what the sheet shows: the header, or the numbers
/// of the columns where there is none; then a rule; then each row below the header.
pub proof fn markdown_tables_show_their_rows(rows: RowsView, ncols: nat, i: int)
    requires
        ncols > 0,
        0 <= i < rows.len(),
    ensures
        ({
            let ls = md_table_lines(rows, true, ncols);
            &&& ls.len() == rows.len() + 1
            &&& row_cells(ls[0]) == shown_row(rows[0], ncols)
            &&& ls[1] == "| "@ + join(dashes(ncols), " | "@) + " |"@
            &&& i > 0 ==> row_cells(ls[i + 1]) == shown_row(rows[i], ncols)
        }),
        ({
            let ls = md_table_lines(rows, false, ncols);
            &&& ls.len() == rows.len() + 2
            &&& ls[0] == "| "@ + join(
                Seq::new(ncols, |c: int| "Col"@ + decimal((c + 1) as nat)),
                " | "@,
            ) + " |"@
            &&& ls[1] == "| "@ + join(dashes(ncols), " | "@) + " |"@
            &&& row_cells(ls[i + 2]) == shown_row(rows[i], ncols)
        }),
{
    lemma_shown_row(rows[0], ncols);
    lemma_shown_row(rows[i], ncols);
    let named = md_table_lines(rows, true, ncols);
    if i > 0 {
        assert(rows.skip(1)[i - 1] == rows[i]);
        assert(named[i + 1] == pipe_row(md_row_cells(rows[i], ncols)));
    }
    let plain = md_table_lines(rows, false, ncols);
    assert(plain[i + 2] == pipe_row(md_row_cells(rows[i], ncols)));
    assert(numbered_columns(ncols) =~= Seq::new(ncols, |c: int| "Col"@ + decimal((c + 1) as nat)));
}

/// The rows of a table that is read are the cells of its lines, but for those of rules.
pub proof fn rules_are_no_rows(ls: Seq<Seq<char>>, a: int, b: int)
    requires
        0 <= a <= b <= ls.len(),
    ensures
        table_cells(ls, a, b) == ls.subrange(a, b).map_values(
            |l: Seq<char>| row_cells(l),
        ).filter(|cells: Seq<Seq<char>>| !is_rule_row(cells)),
    decreases b - a,
{
    reveal(Seq::filter);
    let read = |l: Seq<char>| row_cells(l);
    let all = ls.subrange(a, b).map_values(read);
    if a < b {
        rules_are_no_rows(ls, a, b - 1);
        assert(all.drop_last() =~= ls.subrange(a, b - 1).map_values(read));
        assert(all.last() == row_cells(ls[b - 1]));
    } else {
        assert(all.filter(|cells: Seq<Seq<char>>| !is_rule_row(cells)) =~= Seq::empty());
    }
}

/// The first table of a text begins at the first line with a pipe and ends before the next line
/// without one.
pub proof fn tables_begin_and_end_at_pipes(ls: Seq<Seq<char>>, i: int)
    requires
        0 <= i <= ls.len(),
    ensures
        ({
            let a = table_begin(ls, i);
            &&& i <= a <= ls.len()
            &&& forall|k: int| i <= k < a ==> !is_table_line(#[trigger] ls[k])
            &&& a < ls.len() ==> is_table_line(ls[a])
        }),
        ({
            let b = table_stop(ls, i);
            &&& i <= b <= ls.len()
            &&& forall|k: int| i <= k < b ==> is_table_line(#[trigger] ls[k])
            &&& b < ls.len() ==> !is_table_line(ls[b])
        }),
    decreases ls.len() - i,
{
    if i < ls.len() {
        tables_begin_and_end_at_pipes(ls, i + 1);
    }
}

/// A column of a text table is as wide as its longest text, and every text of it is filled up
/// to that width with blanks behind it.
pub proof fn columns_are_as_wide_as_their_texts(grid: Seq<Seq<Seq<char>>>, c: int, n: nat, r: int)
    requires
        0 <= r < n <= grid.len(),
    ensures
        grid[r][c].len() <= column_width(grid, c, n),
        exists|k: int| 0 <= k < n && (#[trigger] grid[k])[c].len() == column_width(grid, c, n),
        ({
            let w = column_width(grid, c, n);
            let p = padded(grid[r][c], w);
            &&& p.len() == w
            &&& p.take(grid[r][c].len() as int) == grid[r][c]
            &&& forall|k: int| grid[r][c].len() <= k < w ==> #[trigger] p[k] == ' '
        }),
    decreases n,
{
    lemma_column_width(grid, c, n);
    let w = column_width(grid, c, n);
    let t = grid[r][c];
    assert(t.len() <= w);
    lemma_blanks((w - t.len()) as nat);
    assert(padded(t, w).take(t.len() as int) =~= t);
}

proof fn lemma_column_width(grid: Seq<Seq<Seq<char>>>, c: int, n: nat)
    requires
        n <= grid.len(),
    ensures
        forall|k: int| 0 <= k < n ==> (#[trigger] grid[k])[c].len() <= column_width(grid, c, n),
        n > 0 ==> exists|k: int|
            0 <= k < n && (#[trigger] grid[k])[c].len() == column_width(grid, c, n),
    decreases n,
{
    if n > 0 {
        lemma_column_width(grid, c, (n - 1) as nat);
        let w = column_width(grid, c, (n - 1) as nat);
        if grid[n - 1][c].len() <= w && n > 1 {
            let k = choose|k: int| 0 <= k < n - 1 && (#[trigger] grid[k])[c].len() == w;
            assert(grid[k][c].len() == column_width(grid, c, n));
        } else {
            assert(grid[n - 1][c].len() == column_width(grid, c, n));
        }
    }
}

proof fn lemma_blanks(n: nat)
    ensures
        repeated(" "@, n).len() == n,
        forall|k: int| 0 <= k < n ==> #[trigger] repeated(" "@, n)[k] == ' ',
    decreases n,
{
    reveal_strlit(" ");
    if n > 0 {
        lemma_blanks((n - 1) as nat);
    }
}

/// The lines of a text table are its rows in order, with the rule behind the first where that
/// is a header.
pub proof fn text_tables_have_their_rows(
    grid: Seq<Seq<Seq<char>>>,
    widths: Seq<nat>,
    border: bool,
    n: nat,
    i: int,
)
    requires
        0 <= i < n <= grid.len(),
    ensures
        grid_lines(grid, widths, false, border, n).len() == n,
        grid_lines(grid, widths, false, border, n)[i] == grid_line(grid[i], widths, border),
        grid_lines(grid, widths, true, border, n).len() == n + 1,
        grid_lines(grid, widths, true, border, n)[0] == grid_line(grid[0], widths, border),
        grid_lines(grid, widths, true, border, n)[1] == grid_rule(widths, border),
        i > 0 ==> grid_lines(grid, widths, true, border, n)[i + 1] == grid_line(
            grid[i],
            widths,
            border,
        ),
    decreases n,
{
    if n > 1 {
        text_tables_have_their_rows(
            grid,
            widths,
            border,
            (n - 1) as nat,
            if i < n - 1 {
                i
            } else {
                0
            },
        );
    } else {
        assert(grid_lines(grid, widths, true, border, 0).len() == 0);
        assert(grid_lines(grid, widths, false, border, 0).len() == 0);
    }
}

} // verus!
