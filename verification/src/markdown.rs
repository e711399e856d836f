//! Markdown read as document blocks: ATX headings, bullet and numbered lists,
//! pipe tables, and paragraphs separated by blank lines.

use crate::blocks::{
    heading_block, list_block, make_heading, make_list, make_para, make_table, para_block,
    table_block,
};
use crate::deep::push_deep;
use crate::render::{
    cells_from, escaped_texts, flat_cell, flat_cells, flat_texts, lemma_escaped_forms,
    lemma_join_is_rest, lemma_read_rest, lemma_trim_is, pipe_row, row_rest, split_cells,
};
use crate::text::{
    char_is_digit, chars_of, decimal, has_char, is_digit, is_space, join, join_texts,
    lemma_decimal_digits, lines, slice_text, text_lines, trim, trim_text,
};
use crate::value::{array, text_value, Json, Num, Value};
use vstd::prelude::*;

verus! {

/// How many characters from position `i` on are `c` without a break.
pub open spec fn run_end(s: Seq<char>, c: char, i: int) -> int
    decreases s.len() - i,
{
    if 0 <= i < s.len() && s[i] == c {
        run_end(s, c, i + 1)
    } else {
        i
    }
}

/// The first position, going back from `j` to `i`, that does not follow `c`.
pub open spec fn run_start(s: Seq<char>, c: char, i: int, j: int) -> int
    decreases j - i,
{
    if 0 <= i < j <= s.len() && s[j - 1] == c {
        run_start(s, c, i, j - 1)
    } else {
        j
    }
}

/// The end of the run of digits that starts at `i`.
pub open spec fn digits_end(s: Seq<char>, i: int) -> int
    decreases s.len() - i,
{
    if 0 <= i < s.len() && is_digit(s[i]) {
        digits_end(s, i + 1)
    } else {
        i
    }
}

fn find_run_end(cs: &Vec<char>, c: char, i: usize) -> (r: usize)
    requires
        i <= cs@.len(),
    ensures
        r == run_end(cs@, c, i as int),
        i <= r <= cs@.len(),
{
    let mut k: usize = i;
    while k < cs.len() && cs[k] == c
        invariant
            i <= k <= cs@.len(),
            run_end(cs@, c, i as int) == run_end(cs@, c, k as int),
        decreases cs@.len() - k,
    {
        k = k + 1;
    }
    k
}

/// The text from `i` on, trimmed.
pub open spec fn trimmed_from(s: Seq<char>, i: int) -> Seq<char> {
    trim(s.subrange(i, s.len() as int))
}

fn trim_from(cs: &Vec<char>, i: usize) -> (r: String)
    requires
        i <= cs@.len(),
    ensures
        r@ == trimmed_from(cs@, i as int),
{
    trim_text(slice_text(cs, i, cs.len()).as_str())
}

/// An ATX heading line (`# ` to `###### `): its level and its text.
pub open spec fn heading_line(t: Seq<char>) -> Option<(u64, Seq<char>)> {
    let h = run_end(t, '#', 0);
    if 1 <= h <= 6 && h < t.len() && t[h] == ' ' {
        Some((h as u64, trimmed_from(t, h)))
    } else {
        None
    }
}

pub fn md_heading(t: &str) -> (r: Option<Value>)
    ensures
        match r {
            Some(v) => heading_line(t@) matches Some(h) && v.deep_view() == heading_block(h.0, h.1),
            None => heading_line(t@) is None,
        },
{
    let cs = chars_of(t);
    let h = find_run_end(&cs, '#', 0);
    if 1 <= h && h <= 6 && h < cs.len() && cs[h] == ' ' {
        Some(make_heading(h as u64, trim_from(&cs, h).as_str()))
    } else {
        None
    }
}

/// A list item line: whether it is numbered, and its text.
pub open spec fn item_line(t: Seq<char>) -> Option<(bool, Seq<char>)> {
    let d = digits_end(t, 0);
    if t.len() >= 2 && (t[0] == '-' || t[0] == '*' || t[0] == '+') && t[1] == ' ' {
        Some((false, trimmed_from(t, 2)))
    } else if d > 0 && d + 1 < t.len() && t[d] == '.' && t[d + 1] == ' ' {
        Some((true, trimmed_from(t, d + 2)))
    } else {
        None
    }
}

pub open spec fn item_ordered(t: Seq<char>) -> bool {
    match item_line(t) {
        Some(p) => p.0,
        None => false,
    }
}

pub open spec fn item_text(t: Seq<char>) -> Seq<char> {
    match item_line(t) {
        Some(p) => p.1,
        None => Seq::empty(),
    }
}

pub fn md_list_item(t: &str) -> (r: Option<(bool, String)>)
    ensures
        match r {
            Some(p) => item_line(t@) == Some((p.0, p.1@)),
            None => item_line(t@) is None,
        },
{
    let cs = chars_of(t);
    if cs.len() >= 2 && (cs[0] == '-' || cs[0] == '*' || cs[0] == '+') && cs[1] == ' ' {
        return Some((false, trim_from(&cs, 2)));
    }
    let mut d: usize = 0;
    while d < cs.len() && char_is_digit(cs[d])
        invariant
            d <= cs@.len(),
            digits_end(cs@, 0) == digits_end(cs@, d as int),
        decreases cs@.len() - d,
    {
        d = d + 1;
    }
    if d > 0 && cs.len() >= 2 && d < cs.len() - 1 && cs[d] == '.' && cs[d + 1] == ' ' {
        Some((true, trim_from(&cs, d + 2)))
    } else {
        None
    }
}

/// Whether a line separates the header of a pipe table from its rows.
pub open spec fn separator_line(s: Seq<char>) -> bool {
    let t = trim(s);
    t.contains('-') && forall|i: int|
        0 <= i < t.len() ==> (#[trigger] t[i] == '|' || t[i] == '-' || t[i] == ':' || t[i] == ' ')
}

pub fn md_separator(s: &str) -> (r: bool)
    ensures
        r == separator_line(s@),
{
    let t = trim_text(s);
    if !has_char(t.as_str(), '-') {
        return false;
    }
    let cs = chars_of(t.as_str());
    let mut i: usize = 0;
    while i < cs.len()
        invariant
            i <= cs@.len(),
            cs@ == trim(s@),
            cs@.contains('-'),
            forall|k: int|
                0 <= k < i ==> (#[trigger] cs@[k] == '|' || cs@[k] == '-' || cs@[k] == ':' || cs@[k]
                    == ' '),
        decreases cs@.len() - i,
    {
        if cs[i] != '|' && cs[i] != '-' && cs[i] != ':' && cs[i] != ' ' {
            return false;
        }
        i = i + 1;
    }
    true
}

/// Where the pipes at the end of a line start, behind `a`; an escaped one is part of a cell.
pub open spec fn end_pipes(u: Seq<char>, a: int) -> int {
    let b = run_start(u, '|', a, u.len() as int);
    if a < b < u.len() && u[b - 1] == '\\' {
        b + 1
    } else {
        b
    }
}

/// A pipe-table line without the pipes at its ends.
pub open spec fn without_pipes(t: Seq<char>) -> Seq<char> {
    let u = trim(t);
    let a = run_end(u, '|', 0);
    u.subrange(a, end_pipes(u, a))
}

/// The cells of a pipe-table line: an escaped pipe is part of a cell, any other ends one.
pub open spec fn row_line(t: Seq<char>) -> Json {
    let cells = cells_from(without_pipes(t), 0, Seq::empty());
    Json::Array(Seq::new(cells.len(), |i: int| Json::Text(cells[i])))
}

pub fn md_row(t: &str) -> (r: Value)
    ensures
        r.deep_view() == row_line(t@),
{
    let u = trim_text(t);
    let cs = chars_of(u.as_str());
    let a = find_run_end(&cs, '|', 0);
    let mut b: usize = cs.len();
    while b > a && cs[b - 1] == '|'
        invariant
            a <= b <= cs@.len(),
            run_start(cs@, '|', a as int, cs@.len() as int) == run_start(
                cs@,
                '|',
                a as int,
                b as int,
            ),
        decreases b,
    {
        b = b - 1;
    }
    if a < b && b < cs.len() && cs[b - 1] == '\\' {
        b = b + 1;
    }
    let pieces = split_cells(slice_text(&cs, a, b).as_str());
    let mut out: Vec<Value> = Vec::new();
    let mut i: usize = 0;
    let ghost want = row_line(t@)->Array_0;
    while i < pieces.len()
        invariant
            i <= pieces@.len(),
            pieces.deep_view() == cells_from(without_pipes(t@), 0, Seq::empty()),
            want == row_line(t@)->Array_0,
            out.deep_view() == want.take(i as int),
        decreases pieces@.len() - i,
    {
        assert(pieces.deep_view()[i as int] == pieces@[i as int]@);
        push_deep(&mut out, text_value(pieces[i].as_str()));
        i = i + 1;
        assert(out.deep_view() =~= want.take(i as int));
    }
    assert(want.take(i as int) =~= want);
    array(out)
}

/// The row of a table in a document reads back from the Markdown that is written of it,
/// each cell on one line, without the blanks at its ends: pipes and backslashes in them are
/// kept.
pub proof fn document_rows_read_back(cells: Seq<Seq<char>>)
    requires
        cells.len() > 0,
    ensures
        row_line(pipe_row(escaped_texts(cells))) == Json::Array(
            Seq::new(cells.len(), |i: int| Json::Text(flat_cell(cells[i]))),
        ),
{
    reveal_strlit("| ");
    reveal_strlit(" |");
    reveal_strlit(" ");
    let esc = escaped_texts(cells);
    let line = pipe_row(esc);
    let inner = row_rest(esc, 0);
    let n = line.len() as int;
    lemma_join_is_rest(esc, 0);
    assert(esc.skip(0) =~= esc);
    assert(line =~= seq!['|'] + inner + seq!['|']);
    assert(line.subrange(0, n) =~= line);
    lemma_trim_is(line, line, 0, n);
    assert(inner[0] == ' ' && inner.last() == ' ') by {
        assert(inner == " "@ + join(esc, " | "@) + " "@);
    }
    assert(line[1] == inner[0]);
    assert(line[n - 2] == inner.last());
    assert(run_end(line, '|', 1) == 1);
    assert(run_end(line, '|', 0) == 1);
    assert(run_start(line, '|', 1, n - 1) == n - 1);
    assert(run_start(line, '|', 1, n) == n - 1);
    assert(without_pipes(line) =~= inner);
    assert(inner.skip(0) =~= inner);
    lemma_escaped_forms(cells);
    lemma_read_rest(inner, 0, flat_texts(cells), 0);
    assert(flat_cells(cells).skip(0) =~= flat_cells(cells));
    assert(row_line(line)->Array_0 =~= Seq::new(
        cells.len(),
        |i: int| Json::Text(flat_cell(cells[i])),
    ));
}

/// The paragraph block of gathered lines, where there are any.
pub open spec fn para_of(para: Seq<Seq<char>>) -> Seq<Json> {
    if para.len() == 0 {
        Seq::empty()
    } else {
        seq![para_block(join(para, " "@))]
    }
}

/// Appends the paragraph of the gathered lines.
pub fn md_flush_para(para: Vec<String>, blocks: &mut Vec<Value>)
    ensures
        final(blocks).deep_view() == old(blocks).deep_view() + para_of(para.deep_view()),
{
    if para.len() > 0 {
        push_deep(blocks, make_para(join_texts(&para, " ").as_str()));
    }
    assert(blocks.deep_view() =~= old(blocks).deep_view() + para_of(para.deep_view()));
}

pub open spec fn is_pipe_line(t: Seq<char>) -> bool {
    t.len() > 0 && t[0] == '|'
}

/// The first line at or after `i` that does not belong to a pipe table.
pub open spec fn table_end(ls: Seq<Seq<char>>, i: int) -> int
    decreases ls.len() - i,
{
    if 0 <= i < ls.len() && is_pipe_line(trim(ls[i])) {
        table_end(ls, i + 1)
    } else {
        i
    }
}

/// The first line at or after `i` that is no item of the same kind of list.
pub open spec fn list_end(ls: Seq<Seq<char>>, i: int, ordered: bool) -> int
    decreases ls.len() - i,
{
    if 0 <= i < ls.len() && (item_line(trim(ls[i])) matches Some(p) && p.0 == ordered) {
        list_end(ls, i + 1, ordered)
    } else {
        i
    }
}

/// The rows that lines `i` to `e` make.
pub open spec fn table_rows(ls: Seq<Seq<char>>, i: int, e: int) -> Seq<Json> {
    Seq::new((e - i) as nat, |k: int| row_line(trim(ls[i + k])))
}

/// The items that lines `i` to `e` make.
pub open spec fn list_items(ls: Seq<Seq<char>>, i: int, e: int) -> Seq<Json> {
    Seq::new((e - i) as nat, |k: int| Json::Text(item_text(trim(ls[i + k]))))
}

pub open spec fn starts_table(ls: Seq<Seq<char>>, i: int) -> bool {
    is_pipe_line(trim(ls[i])) && i + 1 < ls.len() && separator_line(ls[i + 1])
}

/// The blocks of the lines from `i` on, where `para` holds the lines of the
/// paragraph that is open.
pub open spec fn md_from(ls: Seq<Seq<char>>, i: int, para: Seq<Seq<char>>) -> Seq<Json>
    decreases ls.len() - i,
{
    if i < 0 || i >= ls.len() {
        para_of(para)
    } else {
        let t = trim(ls[i]);
        if t.len() == 0 {
            para_of(para) + md_from(ls, i + 1, Seq::empty())
        } else if heading_line(t) is Some {
            let h = heading_line(t)->0;
            para_of(para) + seq![heading_block(h.0, h.1)] + md_from(ls, i + 1, Seq::empty())
        } else if starts_table(ls, i) {
            let e = table_end(ls, i + 2);
            if i < e <= ls.len() {
                para_of(para) + seq![
                    table_block(seq![row_line(t)] + table_rows(ls, i + 2, e)),
                ] + md_from(ls, e, Seq::empty())
            } else {
                Seq::empty()
            }
        } else if item_line(t) is Some {
            let e = list_end(ls, i + 1, item_ordered(t));
            if i < e <= ls.len() {
                para_of(para) + seq![
                    list_block(item_ordered(t), list_items(ls, i, e)),
                ] + md_from(ls, e, Seq::empty())
            } else {
                Seq::empty()
            }
        } else {
            md_from(ls, i + 1, para.push(t))
        }
    }
}

/// The blocks of a Markdown text.
pub open spec fn markdown_blocks(s: Seq<char>) -> Seq<Json> {
    md_from(lines(s), 0, Seq::empty())
}

fn read_table(ls: &Vec<String>, t: &str, i: usize) -> (r: (Vec<Value>, usize))
    requires
        i + 1 < ls@.len(),
        t@ == trim(ls.deep_view()[i as int]),
    ensures
        r.1 == table_end(ls.deep_view(), i + 2),
        i < r.1 <= ls@.len(),
        r.0.deep_view() == seq![row_line(t@)] + table_rows(ls.deep_view(), i + 2, r.1 as int),
{
    let mut rows: Vec<Value> = Vec::new();
    push_deep(&mut rows, md_row(t));
    let total: usize = ls.len();
    assert(i + 2 <= total);
    let mut k: usize = i + 2;
    let ghost lv = ls.deep_view();
    assert(rows.deep_view() =~= seq![row_line(t@)] + table_rows(lv, i + 2, k as int));
    while k < ls.len()
        invariant_except_break
            i + 2 <= k <= ls@.len(),
            lv == ls.deep_view(),
            table_end(lv, i + 2) == table_end(lv, k as int),
            rows.deep_view() == seq![row_line(t@)] + table_rows(lv, i + 2, k as int),
        ensures
            i + 2 <= k <= ls@.len(),
            lv == ls.deep_view(),
            table_end(lv, i + 2) == k,
            rows.deep_view() == seq![row_line(t@)] + table_rows(lv, i + 2, k as int),
        decreases ls@.len() - k,
    {
        assert(lv[k as int] == ls@[k as int]@);
        let u = trim_text(ls[k].as_str());
        let cs = chars_of(u.as_str());
        if cs.len() == 0 || cs[0] != '|' {
            break;
        }
        let ghost before = rows.deep_view();
        push_deep(&mut rows, md_row(u.as_str()));
        assert(table_rows(lv, i + 2, k + 1) =~= table_rows(lv, i + 2, k as int).push(
            row_line(u@),
        ));
        assert(rows.deep_view() =~= seq![row_line(t@)] + table_rows(lv, i + 2, k + 1));
        k = k + 1;
    }
    (rows, k)
}

fn read_list(ls: &Vec<String>, first: (bool, String), i: usize) -> (r: (Vec<Value>, usize))
    requires
        i < ls@.len(),
        item_line(trim(ls.deep_view()[i as int])) == Some((first.0, first.1@)),
    ensures
        r.1 == list_end(ls.deep_view(), i + 1, first.0),
        i < r.1 <= ls@.len(),
        r.0.deep_view() == list_items(ls.deep_view(), i as int, r.1 as int),
{
    let mut items: Vec<Value> = Vec::new();
    let ordered = first.0;
    let total: usize = ls.len();
    push_deep(&mut items, Value::Text(first.1));
    assert(i + 1 <= total);
    let mut k: usize = i + 1;
    let ghost lv = ls.deep_view();
    assert(items.deep_view() =~= list_items(lv, i as int, k as int));
    while k < ls.len()
        invariant_except_break
            i + 1 <= k <= ls@.len(),
            lv == ls.deep_view(),
            list_end(lv, i + 1, ordered) == list_end(lv, k as int, ordered),
            items.deep_view() == list_items(lv, i as int, k as int),
        ensures
            i + 1 <= k <= ls@.len(),
            lv == ls.deep_view(),
            list_end(lv, i + 1, ordered) == k,
            items.deep_view() == list_items(lv, i as int, k as int),
        decreases ls@.len() - k,
    {
        assert(lv[k as int] == ls@[k as int]@);
        match md_list_item(trim_text(ls[k].as_str()).as_str()) {
            Some((o2, it2)) => {
                if o2 != ordered {
                    break;
                }
                push_deep(&mut items, Value::Text(it2));
                assert(items.deep_view() =~= list_items(lv, i as int, k + 1));
                k = k + 1;
            },
            None => {
                break;
            },
        }
    }
    (items, k)
}

proof fn lemma_with_block(b0: Seq<Json>, flushed: Seq<Json>, block: Json, rest: Seq<Json>)
    ensures
        (b0 + flushed).push(block) + rest == b0 + (flushed + seq![block] + rest),
{
    assert((b0 + flushed).push(block) + rest =~= b0 + (flushed + seq![block] + rest));
}

proof fn lemma_without_block(b0: Seq<Json>, flushed: Seq<Json>, rest: Seq<Json>)
    ensures
        (b0 + flushed) + rest == b0 + (flushed + rest),
{
    assert((b0 + flushed) + rest =~= b0 + (flushed + rest));
}

fn no_lines() -> (r: Vec<String>)
    ensures
        r.deep_view() == Seq::<Seq<char>>::empty(),
{
    let r: Vec<String> = Vec::new();
    assert(r.deep_view() =~= Seq::<Seq<char>>::empty());
    r
}

/// Takes in the block that starts at line `i`, or one line of a paragraph.
fn md_next(ls: &Vec<String>, i: usize, para: Vec<String>, blocks: &mut Vec<Value>) -> (r: (
    usize,
    Vec<String>,
))
    requires
        i < ls@.len(),
    ensures
        i < r.0 <= ls@.len(),
        final(blocks).deep_view() + md_from(ls.deep_view(), r.0 as int, r.1.deep_view()) == old(
            blocks,
        ).deep_view() + md_from(ls.deep_view(), i as int, para.deep_view()),
{
    let ghost lv = ls.deep_view();
    assert(lv[i as int] == ls@[i as int]@);
    let ghost b0 = blocks.deep_view();
    let ghost flushed = para_of(para.deep_view());
    let ghost none = Seq::<Seq<char>>::empty();
    let total: usize = ls.len();
    let t = trim_text(ls[i].as_str());
    let tc = chars_of(t.as_str());
    if tc.len() == 0 {
        md_flush_para(para, blocks);
        proof {
            lemma_without_block(b0, flushed, md_from(lv, i + 1, none));
        }
        return (i + 1, no_lines());
    }
    match md_heading(t.as_str()) {
        Some(h) => {
            md_flush_para(para, blocks);
            push_deep(blocks, h);
            proof {
                lemma_with_block(b0, flushed, h.deep_view(), md_from(lv, i + 1, none));
            }
            return (i + 1, no_lines());
        },
        None => {},
    }
    let mut is_table = false;
    if tc[0] == '|' && i < total - 1 {
        assert(lv[i + 1] == ls@[i + 1]@);
        is_table = md_separator(ls[i + 1].as_str());
    }
    assert(is_table == starts_table(lv, i as int));
    if is_table {
        let (rows, e) = read_table(ls, t.as_str(), i);
        md_flush_para(para, blocks);
        let ghost block = table_block(rows.deep_view());
        push_deep(blocks, make_table(rows));
        proof {
            lemma_with_block(b0, flushed, block, md_from(lv, e as int, none));
        }
        return (e, no_lines());
    }
    match md_list_item(t.as_str()) {
        Some(first) => {
            let ordered = first.0;
            let (items, e) = read_list(ls, first, i);
            md_flush_para(para, blocks);
            let ghost block = list_block(ordered, items.deep_view());
            push_deep(blocks, make_list(ordered, items));
            proof {
                lemma_with_block(b0, flushed, block, md_from(lv, e as int, none));
            }
            (e, no_lines())
        },
        None => {
            let mut more = para;
            push_deep(&mut more, t);
            (i + 1, more)
        },
    }
}

/// The blocks of a Markdown text.
pub fn parse_markdown_blocks(text: &str) -> (r: Vec<Value>)
    ensures
        r.deep_view() == markdown_blocks(text@),
{
    let ls = text_lines(text);
    let mut blocks: Vec<Value> = Vec::new();
    let mut para: Vec<String> = no_lines();
    let mut i: usize = 0;
    assert(blocks.deep_view() + md_from(ls.deep_view(), 0, para.deep_view()) =~= markdown_blocks(
        text@,
    ));
    while i < ls.len()
        invariant
            i <= ls@.len(),
            blocks.deep_view() + md_from(ls.deep_view(), i as int, para.deep_view())
                == markdown_blocks(text@),
        decreases ls@.len() - i,
    {
        let (next, open) = md_next(&ls, i, para, &mut blocks);
        i = next;
        para = open;
    }
    md_flush_para(para, &mut blocks);
    blocks
}

// ── what Markdown says ──────────────────────────────────────────────────────

/// A block of a Markdown text: the lines of a paragraph, a heading with its level, a list with
/// the number or the bullet and the text of each item, or a table with the line below its
/// first row.
pub enum MdItem {
    Para(Seq<Seq<char>>),
    Heading(u64, Seq<char>),
    List(bool, Seq<(nat, Seq<char>)>),
    Table(Seq<Seq<Seq<char>>>, Seq<char>),
}

/// Whether a text is there and has no white space at its ends.
pub open spec fn is_trimmed(t: Seq<char>) -> bool {
    t.len() > 0 && !is_space(t[0]) && !is_space(t[t.len() - 1])
}

/// Whether a line starts with nothing that makes another block than a paragraph.
pub open spec fn is_plain_start(t: Seq<char>) -> bool {
    is_trimmed(t) && t[0] != '#' && t[0] != '|' && t[0] != '-' && t[0] != '*' && t[0] != '+'
        && !('0' <= t[0] <= '9')
}

pub open spec fn is_md_item(item: MdItem) -> bool {
    match item {
        MdItem::Para(ls) => ls.len() > 0 && forall|i: int|
            0 <= i < ls.len() ==> is_plain_start(#[trigger] ls[i]),
        MdItem::Heading(level, t) => 1 <= level <= 6 && is_trimmed(t),
        MdItem::List(_, items) => items.len() > 0 && forall|i: int|
            0 <= i < items.len() ==> is_trimmed((#[trigger] items[i]).1),
        MdItem::Table(rows, rule) => {
            &&& rows.len() > 0
            &&& forall|i: int| 0 <= i < rows.len() ==> (#[trigger] rows[i]).len() > 0
            &&& rule.contains('-')
            &&& forall|i: int|
                0 <= i < rule.len() ==> (#[trigger] rule[i] == '|' || rule[i] == '-' || rule[i]
                    == ':')
        },
    }
}

/// A character over and over.
pub open spec fn row_of(c: char, n: nat) -> Seq<char> {
    Seq::new(n, |i: int| c)
}

pub open spec fn md_item_line(ordered: bool, item: (nat, Seq<char>)) -> Seq<char> {
    (if ordered {
        decimal(item.0) + seq!['.']
    } else if item.0 % 3 == 0 {
        seq!['-']
    } else if item.0 % 3 == 1 {
        seq!['*']
    } else {
        seq!['+']
    }) + seq![' '] + item.1
}

/// The lines of a block.
pub open spec fn md_item_lines(item: MdItem) -> Seq<Seq<char>> {
    match item {
        MdItem::Para(ls) => ls,
        MdItem::Heading(level, t) => seq![row_of('#', level as nat) + seq![' '] + t],
        MdItem::List(ordered, items) => Seq::new(
            items.len(),
            |i: int| md_item_line(ordered, items[i]),
        ),
        MdItem::Table(rows, rule) => seq![pipe_row(escaped_texts(rows[0])), rule] + Seq::new(
            (rows.len() - 1) as nat,
            |i: int| pipe_row(escaped_texts(rows[i + 1])),
        ),
    }
}

/// What a block says.
pub open spec fn md_item_block(item: MdItem) -> Json {
    match item {
        MdItem::Para(ls) => Json::Object(
            seq![("kind"@, Json::Text("para"@)), ("text"@, Json::Text(join(ls, " "@)))],
        ),
        MdItem::Heading(level, t) => Json::Object(
            seq![
                ("kind"@, Json::Text("heading"@)),
                ("level"@, Json::Number(Num::Unsigned(level))),
                ("text"@, Json::Text(t)),
            ],
        ),
        MdItem::List(ordered, items) => Json::Object(
            seq![
                ("kind"@, Json::Text("list"@)),
                ("ordered"@, Json::Bool(ordered)),
                ("items"@, Json::Array(Seq::new(items.len(), |i: int| Json::Text(items[i].1)))),
            ],
        ),
        MdItem::Table(rows, _) => Json::Object(
            seq![
                ("kind"@, Json::Text("table"@)),
                ("rows"@, Json::Array(Seq::new(rows.len(), |i: int| flat_row(rows[i])))),
            ],
        ),
    }
}

/// The texts of cells, each on one line.
pub open spec fn flat_row(cells: Seq<Seq<char>>) -> Json {
    Json::Array(Seq::new(cells.len(), |j: int| Json::Text(flat_cell(cells[j]))))
}

/// The lines of blocks, one behind the other; an empty line follows those that ask for it.
pub open spec fn md_lines(items: Seq<(MdItem, bool)>) -> Seq<Seq<char>>
    decreases items.len(),
{
    if items.len() == 0 {
        Seq::empty()
    } else {
        md_item_lines(items[0].0) + (if items[0].1 {
            seq![Seq::<char>::empty()]
        } else {
            Seq::empty()
        }) + md_lines(items.drop_first())
    }
}

/// Whether blocks are kept apart: by an empty line, or because one of the two is a heading.
pub open spec fn are_apart(items: Seq<(MdItem, bool)>) -> bool {
    forall|i: int|
        0 <= i < items.len() - 1 && !(#[trigger] items[i]).1 ==> items[i].0 is Heading || items[i
            + 1].0 is Heading
}

proof fn lemma_trims_to_itself(t: Seq<char>)
    requires
        is_trimmed(t),
    ensures
        trim(t) == t,
{
    assert(t.subrange(0, t.len() as int) =~= t);
    lemma_trim_is(t, t, 0, t.len() as int);
}

proof fn lemma_trims_blank_off(t: Seq<char>)
    requires
        is_trimmed(t),
    ensures
        trim(seq![' '] + t) == t,
{
    let s = seq![' '] + t;
    assert(s.subrange(1, s.len() as int) =~= t);
    assert(s[1] == t[0] && s[s.len() - 1] == t[t.len() - 1]);
    lemma_trim_is(s, t, 1, s.len() as int);
}

proof fn lemma_hashes(t: Seq<char>, n: int, i: int)
    requires
        0 <= i <= n < t.len(),
        forall|k: int| 0 <= k < n ==> #[trigger] t[k] == '#',
        t[n] != '#',
    ensures
        run_end(t, '#', i) == n,
    decreases n - i,
{
    if i < n {
        assert(t[i] == '#');
        lemma_hashes(t, n, i + 1);
    }
}

proof fn lemma_heading_line(level: u64, text: Seq<char>)
    requires
        1 <= level <= 6,
        is_trimmed(text),
    ensures
        ({
            let t = row_of('#', level as nat) + seq![' '] + text;
            trim(t) == t && t.len() > 0 && heading_line(t) == Some((level, text))
        }),
{
    let t = row_of('#', level as nat) + seq![' '] + text;
    let h = level as int;
    assert(t[0] == '#' && t[t.len() - 1] == text[text.len() - 1]);
    lemma_trims_to_itself(t);
    assert(t[h] == ' ');
    lemma_hashes(t, h, 0);
    assert(t.subrange(h, t.len() as int) =~= seq![' '] + text);
    lemma_trims_blank_off(text);
}

proof fn lemma_digit_run(t: Seq<char>, n: int, i: int)
    requires
        0 <= i <= n < t.len(),
        forall|k: int| 0 <= k < n ==> is_digit(#[trigger] t[k]),
        !is_digit(t[n]),
    ensures
        digits_end(t, i) == n,
    decreases n - i,
{
    if i < n {
        assert(is_digit(t[i]));
        lemma_digit_run(t, n, i + 1);
    }
}

proof fn lemma_item_line(ordered: bool, item: (nat, Seq<char>))
    requires
        is_trimmed(item.1),
    ensures
        ({
            let t = md_item_line(ordered, item);
            trim(t) == t && t.len() > 0 && item_line(t) == Some((ordered, item.1)) && t[0] != '#'
                && t[0] != '|'
        }),
{
    let t = md_item_line(ordered, item);
    let n = item.0;
    let text = item.1;
    assert(t[t.len() - 1] == text[text.len() - 1]);
    if ordered {
        lemma_decimal_digits(n);
        let d = decimal(n);
        let m = d.len() as int;
        assert forall|k: int| 0 <= k < m implies is_digit(#[trigger] t[k]) by {
            assert(t[k] == d[k]);
        }
        assert(t[m] == '.' && t[m + 1] == ' ');
        assert(is_digit(t[0]));
        lemma_digit_run(t, m, 0);
        assert(t.subrange(m + 2, t.len() as int) =~= text);
        lemma_trims_to_itself(text);
        lemma_trims_to_itself(t);
    } else {
        assert(t[1] == ' ');
        assert(t.subrange(2, t.len() as int) =~= text);
        lemma_trims_to_itself(text);
        lemma_trims_to_itself(t);
    }
}

proof fn lemma_pipe_line(cells: Seq<Seq<char>>)
    requires
        cells.len() > 0,
    ensures
        ({
            let t = pipe_row(escaped_texts(cells));
            trim(t) == t && is_pipe_line(t) && row_line(t) == flat_row(cells)
        }),
{
    let t = pipe_row(escaped_texts(cells));
    reveal_strlit("| ");
    reveal_strlit(" |");
    assert(t[0] == '|' && t[t.len() - 1] == '|');
    lemma_trims_to_itself(t);
    document_rows_read_back(cells);
    assert(row_line(t)->Array_0 =~= flat_row(cells)->Array_0);
}

/// A line that is no item of a list and no row of a table, and ends a paragraph.
spec fn ends_block(ls: Seq<Seq<char>>, j: int) -> bool {
    j >= ls.len() || trim(ls[j]).len() == 0 || (heading_line(trim(ls[j])) is Some && trim(
        ls[j],
    )[0] == '#')
}

proof fn lemma_after_para(ls: Seq<Seq<char>>, j: int, para: Seq<Seq<char>>)
    requires
        0 <= j <= ls.len(),
        ends_block(ls, j),
    ensures
        md_from(ls, j, para) == para_of(para) + md_from(ls, j, Seq::empty()),
{
    let none = Seq::<Seq<char>>::empty();
    if j >= ls.len() {
        assert(para_of(para) + para_of(none) =~= para_of(para));
    } else if trim(ls[j]).len() == 0 {
        let rest = md_from(ls, j + 1, none);
        assert(para_of(none) + rest =~= rest);
    } else {
        let h = heading_line(trim(ls[j]))->0;
        let rest = md_from(ls, j + 1, none);
        let b = seq![heading_block(h.0, h.1)];
        assert(para_of(para) + b + rest =~= para_of(para) + (para_of(none) + b + rest));
    }
}

proof fn lemma_md_para(ls: Seq<Seq<char>>, i: int, k: int, para: Seq<Seq<char>>)
    requires
        0 <= i <= k <= ls.len(),
        forall|m: int| i <= m < k ==> is_plain_start(#[trigger] ls[m]),
        ends_block(ls, k),
    ensures
        md_from(ls, i, para) == para_of(para + ls.subrange(i, k)) + md_from(ls, k, Seq::empty()),
    decreases k - i,
{
    if i == k {
        assert(para + ls.subrange(i, k) =~= para);
        lemma_after_para(ls, k, para);
    } else {
        let t = ls[i];
        assert(is_plain_start(t));
        lemma_trims_to_itself(t);
        assert(run_end(t, '#', 0) == 0);
        assert(digits_end(t, 0) == 0);
        lemma_md_para(ls, i + 1, k, para.push(t));
        assert(para.push(t) + ls.subrange(i + 1, k) =~= para + ls.subrange(i, k));
    }
}

proof fn lemma_list_end(ls: Seq<Seq<char>>, i: int, k: int, ordered: bool)
    requires
        0 <= i <= k <= ls.len(),
        forall|m: int|
            i <= m < k ==> (item_line(trim(#[trigger] ls[m])) matches Some(p) && p.0 == ordered),
        ends_block(ls, k),
    ensures
        list_end(ls, i, ordered) == k,
    decreases k - i,
{
    if i < k {
        assert(item_line(trim(ls[i])) matches Some(p) && p.0 == ordered);
        lemma_list_end(ls, i + 1, k, ordered);
    } else if k < ls.len() {
        let t = trim(ls[k]);
        if t.len() > 0 {
            assert(t[0] == '#');
            assert(digits_end(t, 0) == 0);
        }
    }
}

proof fn lemma_table_end(ls: Seq<Seq<char>>, i: int, k: int)
    requires
        0 <= i <= k <= ls.len(),
        forall|m: int| i <= m < k ==> is_pipe_line(trim(#[trigger] ls[m])),
        ends_block(ls, k),
    ensures
        table_end(ls, i) == k,
    decreases k - i,
{
    if i < k {
        assert(is_pipe_line(trim(ls[i])));
        lemma_table_end(ls, i + 1, k);
    }
}

/// One block, up to where the next one starts.
proof fn lemma_md_item(ls: Seq<Seq<char>>, i: int, k: int, item: MdItem)
    requires
        is_md_item(item),
        0 <= i <= k <= ls.len(),
        ls.subrange(i, k) == md_item_lines(item),
        item is Heading || ends_block(ls, k),
    ensures
        md_from(ls, i, Seq::empty()) == seq![md_item_block(item)] + md_from(ls, k, Seq::empty()),
{
    let none = Seq::<Seq<char>>::empty();
    let mine = md_item_lines(item);
    assert(mine.len() == k - i);
    assert forall|m: int| i <= m < k implies #[trigger] ls[m] == mine[m - i] by {
        assert(ls.subrange(i, k)[m - i] == ls[m]);
    }
    let rest = md_from(ls, k, none);
    let block = seq![md_item_block(item)];
    assert(para_of(none) + block + rest =~= block + rest);
    match item {
        MdItem::Para(own) => {
            assert forall|m: int| i <= m < k implies is_plain_start(#[trigger] ls[m]) by {
                assert(ls[m] == own[m - i]);
            }
            lemma_md_para(ls, i, k, none);
            assert(none + ls.subrange(i, k) =~= own);
        },
        MdItem::Heading(level, t) => {
            lemma_heading_line(level, t);
            assert(ls[i] == mine[0]);
            assert(k == i + 1);
        },
        MdItem::List(ordered, items) => {
            assert(mine.len() == items.len());
            assert forall|m: int| i <= m < k implies item_line(trim(#[trigger] ls[m])) == Some(
                (ordered, items[m - i].1),
            ) by {
                assert(ls[m] == md_item_line(ordered, items[m - i]));
                lemma_item_line(ordered, items[m - i]);
            }
            lemma_item_line(ordered, items[0]);
            assert(ls[i] == mine[0]);
            let t = trim(ls[i]);
            assert(t == md_item_line(ordered, items[0]));
            assert(run_end(t, '#', 0) == 0);
            lemma_list_end(ls, i + 1, k, ordered);
            assert(item_line(t) == Some((ordered, items[0].1)));
            assert(list_items(ls, i, k) =~= Seq::new(
                items.len(),
                |m: int| Json::Text(items[m].1),
            )) by {
                assert forall|m: int| 0 <= m < items.len() implies item_text(trim(ls[i + m]))
                    == #[trigger] items[m].1 by {
                    assert(ls[i + m] == mine[m]);
                }
            }
        },
        MdItem::Table(rows, rule) => {
            assert(mine.len() == rows.len() + 1);
            assert(ls[i] == mine[0] && ls[i + 1] == mine[1]);
            lemma_pipe_line(rows[0]);
            let t = trim(ls[i]);
            assert(run_end(t, '#', 0) == 0);
            lemma_rule(rule);
            assert(starts_table(ls, i));
            assert forall|m: int| i + 2 <= m < k implies is_pipe_line(trim(#[trigger] ls[m]))
                && row_line(trim(ls[m])) == flat_row(rows[m - i - 1]) by {
                assert(ls[m] == mine[m - i]);
                assert(mine[m - i] == pipe_row(escaped_texts(rows[m - i - 1])));
                assert(rows[m - i - 1].len() > 0);
                lemma_pipe_line(rows[m - i - 1]);
            }
            lemma_table_end(ls, i + 2, k);
            assert(rows[0].len() > 0);
            assert(seq![row_line(t)] + table_rows(ls, i + 2, k) =~= Seq::new(
                rows.len(),
                |m: int| flat_row(rows[m]),
            )) by {
                assert forall|m: int| 1 <= m < rows.len() implies row_line(
                    trim(ls[i + 2 + (m - 1)]),
                ) == flat_row(#[trigger] rows[m]) by {
                    assert(i + 2 <= i + 1 + m < k);
                    assert(row_line(trim(ls[i + 1 + m])) == flat_row(rows[i + 1 + m - i - 1]));
                }
            }
        },
    }
}

proof fn lemma_rule(rule: Seq<char>)
    requires
        rule.contains('-'),
        forall|i: int|
            0 <= i < rule.len() ==> (#[trigger] rule[i] == '|' || rule[i] == '-' || rule[i] == ':'),
    ensures
        separator_line(rule),
{
    assert(rule.len() > 0);
    assert(rule[0] == '|' || rule[0] == '-' || rule[0] == ':');
    let z = rule.len() - 1;
    assert(rule[z] == '|' || rule[z] == '-' || rule[z] == ':');
    lemma_trims_to_itself(rule);
}

/// Lines that stand behind others of which the first ones are known.
proof fn lemma_split_lines(
    ls: Seq<Seq<char>>,
    i: int,
    a: Seq<Seq<char>>,
    b: Seq<Seq<char>>,
    c: Seq<Seq<char>>,
)
    requires
        0 <= i <= ls.len(),
        ls.skip(i) == a + b + c,
    ensures
        i + a.len() + b.len() <= ls.len(),
        ls.subrange(i, i + a.len()) == a,
        ls.skip(i + a.len() + b.len()) == c,
        b.len() > 0 ==> ls[i + a.len()] == b[0],
        b.len() == 0 && c.len() > 0 ==> ls[i + a.len()] == c[0],
        i + a.len() + b.len() + c.len() == ls.len(),
{
    let all = a + b + c;
    assert(all.len() == ls.len() - i);
    assert forall|m: int| i <= m < ls.len() implies #[trigger] ls[m] == all[m - i] by {
        assert(ls.skip(i)[m - i] == ls[m]);
    }
    assert(ls.subrange(i, i + a.len()) =~= a);
    assert(ls.skip(i + a.len() + b.len()) =~= c);
}

/// Where a block ends, another one can start.
proof fn lemma_block_ends(ls: Seq<Seq<char>>, k: int, items: Seq<(MdItem, bool)>)
    requires
        items.len() > 0,
        is_md_item(items[0].0),
        are_apart(items),
        0 <= k <= ls.len(),
        items[0].1 ==> k < ls.len() && ls[k].len() == 0,
        !items[0].1 && items.len() == 1 ==> k == ls.len(),
        !items[0].1 && items.len() > 1 && items[1].0 is Heading ==> k < ls.len() && is_md_item(
            items[1].0,
        ) && ls[k] == md_item_lines(items[1].0)[0],
    ensures
        items[0].0 is Heading || ends_block(ls, k),
{
    if items[0].1 {
        assert(ls[k].subrange(0, 0) =~= ls[k]);
        lemma_trim_is(ls[k], ls[k], 0, 0);
    } else if items.len() > 1 {
        assert(items[0].0 is Heading || items[1].0 is Heading);
        match items[1].0 {
            MdItem::Heading(level, t) => {
                lemma_heading_line(level, t);
                let line = row_of('#', level as nat) + seq![' '] + t;
                assert(ls[k] == line);
                assert(line[0] == '#');
            },
            _ => {},
        }
    }
}

proof fn lemma_md_items(ls: Seq<Seq<char>>, i: int, items: Seq<(MdItem, bool)>)
    requires
        0 <= i <= ls.len(),
        ls.skip(i) == md_lines(items),
        are_apart(items),
        forall|k: int| 0 <= k < items.len() ==> is_md_item((#[trigger] items[k]).0),
    ensures
        md_from(ls, i, Seq::empty()) == Seq::new(items.len(), |k: int| md_item_block(items[k].0)),
    decreases items.len(),
{
    let none = Seq::<Seq<char>>::empty();
    let want = Seq::new(items.len(), |k: int| md_item_block(items[k].0));
    if items.len() == 0 {
        assert(ls.skip(i).len() == 0);
        assert(md_from(ls, i, none) =~= want);
    } else {
        let (item, blank) = items[0];
        let later = items.drop_first();
        let mine = md_item_lines(item);
        let gap = if blank {
            seq![Seq::<char>::empty()]
        } else {
            Seq::empty()
        };
        let k = i + mine.len();
        lemma_split_lines(ls, i, mine, gap, md_lines(later));
        assert(is_md_item(item));
        assert forall|j: int| 0 <= j < later.len() implies is_md_item((#[trigger] later[j]).0) by {
            assert(later[j] == items[j + 1]);
        }
        assert(are_apart(later)) by {
            assert forall|j: int| 0 <= j < later.len() - 1 && !(#[trigger] later[j]).1 implies later[
                j
            ].0 is Heading || later[j + 1].0 is Heading by {
                assert(later[j] == items[j + 1]);
                assert(later[j + 1] == items[j + 2]);
            }
        }
        if later.len() > 0 {
            assert(later[0] == items[1]);
            assert(is_md_item(items[1].0));
            if items[1].0 is Heading {
                assert(md_item_lines(items[1].0).len() == 1);
                assert(md_lines(later)[0] == md_item_lines(items[1].0)[0]);
            }
        }
        lemma_block_ends(ls, k, items);
        lemma_md_item(ls, i, k, item);
        lemma_md_items(ls, k + gap.len(), later);
        let rest = md_from(ls, k + gap.len(), none);
        if blank {
            assert(ls[k].subrange(0, 0) =~= ls[k]);
            lemma_trim_is(ls[k], ls[k], 0, 0);
            assert(para_of(none) + rest =~= rest);
        }
        assert(md_from(ls, k, none) == rest);
        assert(rest =~= Seq::new(later.len(), |m: int| md_item_block(later[m].0)));
        assert(seq![md_item_block(item)] + rest =~= want) by {
            assert forall|m: int| 0 <= m < later.len() implies #[trigger] later[m] == items[m
                + 1] by {}
        }
    }
}

/// A Markdown text gives one block for each of its paragraphs, headings, lists and tables, in
/// order, with what they say: a heading its level, a list its items and whether they are
/// numbered, and a table the cells of all its rows but the line below the first.
pub proof fn markdown_gives_its_blocks(s: Seq<char>, items: Seq<(MdItem, bool)>)
    requires
        lines(s) == md_lines(items),
        are_apart(items),
        forall|k: int| 0 <= k < items.len() ==> is_md_item((#[trigger] items[k]).0),
    ensures
        markdown_blocks(s) == Seq::new(items.len(), |k: int| md_item_block(items[k].0)),
{
    assert(lines(s).skip(0) =~= lines(s));
    lemma_md_items(lines(s), 0, items);
}

} // verus!
