//! The cells of a column put through a named operation.

use crate::columns::{opt_jsons, put_value, replace_column, with_replacements};
use crate::deep::tabulate;
use crate::grid::{cell_at, copy_cell, data_start, first_data_row, grown_row, Rows, RowsView};
use crate::render::{lemma_back_ends, lemma_join_front, lemma_skip_bounds, lemma_trim_is};
use crate::text::{
    all_ascii, back_space, chars_of, concat2, copy_text, is_ascii, is_space, join, join_texts,
    lower, lower_char, lowercase, same, skip_space, slice_text, text_words, to_lowercase,
    to_uppercase, trim, trim_text, upper, upper_char, uppercase, word_end, words, words_from,
};
use crate::value::{cell_text, cell_to_string, Json, Value};
use vstd::prelude::*;

verus! {

/// A word with its first letter in upper case and the others in lower case.
pub open spec fn title_word(w: Seq<char>) -> Seq<char> {
    if w.len() == 0 {
        w
    } else {
        uppercase(w.take(1)) + lowercase(w.skip(1))
    }
}

/// A text with each of its words capitalised, one blank between them.
pub open spec fn titled(s: Seq<char>) -> Seq<char> {
    join(Seq::new(words(s).len(), |i: int| title_word(words(s)[i])), " "@)
}

fn make_title_word(w: &str) -> (r: String)
    ensures
        r@ == title_word(w@),
{
    let cs = chars_of(w);
    if cs.len() == 0 {
        return copy_text(w);
    }
    let first = slice_text(&cs, 0, 1);
    let rest = slice_text(&cs, 1, cs.len());
    assert(first@ =~= w@.take(1));
    assert(rest@ =~= w@.skip(1));
    concat2(to_uppercase(first.as_str()).as_str(), to_lowercase(rest.as_str()).as_str())
}

/// A text in title case.
pub fn title_case(s: &str) -> (r: String)
    ensures
        r@ == titled(s@),
{
    let ws = text_words(s);
    let ghost wv = ws.deep_view();
    let make = |i: usize| -> (t: String)
        requires
            i < ws@.len(),
        ensures
            t@ == title_word(ws@[i as int]@),
        { make_title_word(ws[i].as_str()) };
    let ghost g = |i: int| title_word(wv[i]);
    assert(wv.len() == ws@.len());
    assert forall|i: usize| i < ws@.len() implies wv[i as int] == (#[trigger] ws@[i as int])@ by {}
    let parts = tabulate(ws.len(), &make, Ghost(g));
    assert(parts.deep_view() =~= Seq::new(words(s@).len(), |i: int| title_word(words(s@)[i])));
    join_texts(&parts, " ")
}

/// Whether an operation works on texts.
pub open spec fn is_text_op(op: Seq<char>) -> bool {
    op == "upper"@ || op == "lower"@ || op == "trim"@ || op == "title"@
}

/// Whether an operation works on numbers.
pub open spec fn is_math_op(op: Seq<char>) -> bool {
    op == "round"@ || op == "floor"@ || op == "ceil"@ || op == "abs"@ || op == "int"@
}

/// Refuses an operation that is not known.
pub fn check_transform(op: &str) -> (r: Result<(), String>)
    ensures
        r is Ok <==> is_text_op(op@) || is_math_op(op@),
        r is Err ==> r->Err_0@ == "unknown op: "@ + op@,
{
    if same(op, "upper") || same(op, "lower") || same(op, "trim") || same(op, "title") || same(
        op,
        "round",
    ) || same(op, "floor") || same(op, "ceil") || same(op, "abs") || same(op, "int") {
        Ok(())
    } else {
        Err(concat2("unknown op: ", op))
    }
}

/// A text after an operation on texts.
pub open spec fn text_after(op: Seq<char>, s: Seq<char>) -> Seq<char> {
    if op == "upper"@ {
        uppercase(s)
    } else if op == "lower"@ {
        lowercase(s)
    } else if op == "trim"@ {
        trim(s)
    } else {
        titled(s)
    }
}

fn apply_to_text(op: &str, s: &str) -> (r: String)
    ensures
        r@ == text_after(op@, s@),
{
    if same(op, "upper") {
        to_uppercase(s)
    } else if same(op, "lower") {
        to_lowercase(s)
    } else if same(op, "trim") {
        trim_text(s)
    } else {
        title_case(s)
    }
}

/// What each data row gets: the text of its cell after an operation on texts, else what
/// was computed of its number; nothing where the cell is no number.
pub open spec fn new_values(
    rows: RowsView,
    start: int,
    c: int,
    op: Seq<char>,
    computed: Seq<Option<Json>>,
) -> Seq<Option<Json>> {
    Seq::new(
        (rows.len() - start) as nat,
        |i: int|
            if is_text_op(op) {
                Some(Json::Text(text_after(op, cell_text(cell_at(rows[start + i], c)))))
            } else if i < computed.len() {
                computed[i]
            } else {
                None
            },
    )
}

/// Applies an operation to a column, in place or into a new column; says how many data
/// rows there are.
pub fn op_sheet_transform(
    rows: &Rows,
    header: bool,
    c: usize,
    op: &str,
    into: Option<&str>,
    computed: &Vec<Option<Value>>,
) -> (r: (Rows, usize))
    requires
        c < usize::MAX,
    ensures
        ({
            let rv = rows.deep_view();
            let start = data_start(header, rv);
            &&& r.0.deep_view() == with_replacements(
                rv,
                start,
                c as int,
                match into {
                    Some(l) => Some(l@),
                    None => None,
                },
                new_values(rv, start, c as int, op@, opt_jsons(computed@)),
            )
            &&& r.1 == rv.len() - start
        }),
{
    let start = first_data_row(header, rows);
    let ghost rv = rows.deep_view();
    assert(rv.len() == rows@.len());
    let total: usize = rows.len();
    let ghost all = new_values(rv, start as int, c as int, op@, opt_jsons(computed@));
    let on_text = same(op, "upper") || same(op, "lower") || same(op, "trim") || same(op, "title");
    let mut repl: Vec<Option<Value>> = Vec::new();
    let mut i: usize = start;
    while i < total
        invariant
            start <= i <= total,
            total == rows@.len(),
            rv == rows.deep_view(),
            on_text == is_text_op(op@),
            all == new_values(rv, start as int, c as int, op@, opt_jsons(computed@)),
            rv.len() == total,
            repl@.len() == i - start,
            opt_jsons(repl@) == all.take(i - start),
        decreases total - i,
    {
        assert(rv[i as int] == rows@[i as int].deep_view());
        let k: usize = i - start;
        let v: Option<Value> = if on_text {
            let t = cell_to_string(&copy_cell(&rows[i], c));
            Some(Value::Text(apply_to_text(op, t.as_str())))
        } else if k < computed.len() {
            match &computed[k] {
                Some(x) => Some(x.dup()),
                None => None,
            }
        } else {
            None
        };
        let ghost was = repl@;
        repl.push(v);
        assert(opt_jsons(repl@) =~= opt_jsons(was).push(all[k as int]));
        i = i + 1;
        assert(opt_jsons(repl@) =~= all.take(i - start));
    }
    assert(all.take(i - start) =~= all);
    (replace_column(rows, start, c, into, &repl), total - start)
}

// ── a second time ───────────────────────────────────────────────────────────

proof fn lemma_case_twice(s: Seq<char>)
    requires
        all_ascii(s),
    ensures
        all_ascii(upper(s)),
        upper(upper(s)) == upper(s),
        all_ascii(lower(s)),
        lower(lower(s)) == lower(s),
{
    assert forall|i: int| 0 <= i < s.len() implies is_ascii(#[trigger] upper(s)[i]) && upper_char(
        upper(s)[i],
    ) == upper(s)[i] by {
        assert(is_ascii(s[i]));
    }
    assert forall|i: int| 0 <= i < s.len() implies is_ascii(#[trigger] lower(s)[i]) && lower_char(
        lower(s)[i],
    ) == lower(s)[i] by {
        assert(is_ascii(s[i]));
    }
    assert(upper(upper(s)) =~= upper(s));
    assert(lower(lower(s)) =~= lower(s));
}

proof fn lemma_trim_twice(s: Seq<char>)
    ensures
        trim(trim(s)) == trim(s),
{
    lemma_skip_bounds(s, 0);
    let x = skip_space(s, 0);
    lemma_back_ends(s, x, s.len() as int);
    let y = back_space(s, x, s.len() as int);
    let t = trim(s);
    assert(t == s.subrange(x, y));
    assert(t.subrange(0, t.len() as int) =~= t);
    if t.len() > 0 {
        assert(t[0] == s[x] && t.last() == s[y - 1]);
    }
    lemma_trim_is(t, t, 0, t.len() as int);
}

/// Whether a text is a word: not empty, and without whitespace.
pub open spec fn is_word(w: Seq<char>) -> bool {
    w.len() > 0 && forall|i: int| 0 <= i < w.len() ==> !is_space(#[trigger] w[i])
}

proof fn lemma_word_run(s: Seq<char>, i: int, e: int)
    requires
        0 <= i <= e <= s.len(),
        forall|k: int| i <= k < e ==> !is_space(#[trigger] s[k]),
        e < s.len() ==> is_space(s[e]),
    ensures
        word_end(s, i) == e,
    decreases e - i,
{
    if i < e {
        assert(!is_space(s[i]));
        lemma_word_run(s, i + 1, e);
    }
}

proof fn lemma_words_from(s: Seq<char>, i: int)
    requires
        0 <= i <= s.len(),
    ensures
        forall|k: int| 0 <= k < words_from(s, i).len() ==> is_word(#[trigger] words_from(s, i)[k]),
        all_ascii(s) ==> forall|k: int|
            0 <= k < words_from(s, i).len() ==> all_ascii(#[trigger] words_from(s, i)[k]),
    decreases s.len() - i,
{
    let a = skip_space(s, i);
    let b = word_end(s, a);
    lemma_skip_bounds(s, i);
    if 0 <= i <= a < b <= s.len() {
        lemma_words_from(s, b);
        lemma_run_has_no_space(s, a);
        let w = s.subrange(a, b);
        let rest = words_from(s, b);
        let all = words_from(s, i);
        assert(all == seq![w] + rest);
        assert forall|k: int| 0 <= k < w.len() implies !is_space(#[trigger] w[k]) by {
            assert(!is_space(s[a + k]));
        }
        assert forall|k: int| 0 <= k < all.len() implies is_word(#[trigger] all[k]) by {
            if k > 0 {
                assert(all[k] == rest[k - 1]);
            }
        }
        if all_ascii(s) {
            assert forall|k: int| 0 <= k < w.len() implies is_ascii(#[trigger] w[k]) by {
                assert(is_ascii(s[a + k]));
            }
            assert forall|k: int| 0 <= k < all.len() implies all_ascii(#[trigger] all[k]) by {
                if k > 0 {
                    assert(all[k] == rest[k - 1]);
                }
            }
        }
    }
}

proof fn lemma_run_has_no_space(s: Seq<char>, i: int)
    requires
        0 <= i <= s.len(),
    ensures
        i <= word_end(s, i) <= s.len(),
        forall|k: int| i <= k < word_end(s, i) ==> !is_space(#[trigger] s[k]),
    decreases s.len() - i,
{
    if i < s.len() && !is_space(s[i]) {
        lemma_run_has_no_space(s, i + 1);
    }
}

/// Words with one blank between them have just these words.
proof fn lemma_words_of_join(s: Seq<char>, i: int, ws: Seq<Seq<char>>, k: int)
    requires
        0 <= k < ws.len(),
        0 <= i <= s.len(),
        s.skip(i) == join(ws.skip(k), " "@),
        forall|j: int| 0 <= j < ws.len() ==> is_word(#[trigger] ws[j]),
    ensures
        words_from(s, i) == ws.skip(k),
    decreases ws.len() - k,
{
    reveal_strlit(" ");
    let part = ws.skip(k);
    let rest = s.skip(i);
    let w = ws[k];
    assert(is_word(w));
    assert(part[0] == w);
    let b = i + w.len();
    let last = k == ws.len() - 1;
    if !last {
        lemma_join_front(part, " "@);
        assert(part.drop_first() =~= ws.skip(k + 1));
        assert(rest == w + " "@ + join(ws.skip(k + 1), " "@));
    } else {
        assert(part.len() == 1);
        assert(rest == w);
    }
    assert forall|j: int| 0 <= j < w.len() implies s[i + j] == #[trigger] w[j] by {
        assert(rest[j] == s[i + j]);
    }
    assert(s[i] == w[0]);
    assert(skip_space(s, i) == i);
    assert forall|j: int| i <= j < b implies !is_space(#[trigger] s[j]) by {
        assert(s[i + (j - i)] == w[j - i]);
    }
    if !last {
        assert(rest[w.len() as int] == ' ');
        assert(s[b] == rest[b - i]);
        assert(is_space(s[b]));
    } else {
        assert(b == s.len());
    }
    lemma_word_run(s, i, b);
    assert(s.subrange(i, b) =~= w);
    if last {
        lemma_skip_bounds(s, b);
        assert(words_from(s, b) =~= Seq::<Seq<char>>::empty());
        assert(ws.skip(k) =~= seq![w]);
    } else {
        let next = join(ws.skip(k + 1), " "@);
        assert(s.skip(b + 1) =~= next) by {
            let left = s.skip(b + 1);
            assert(left.len() == next.len());
            assert forall|j: int| 0 <= j < next.len() implies #[trigger] left[j] == next[j] by {
                assert(rest[w.len() + 1 + j] == next[j]);
                assert(s[i + (w.len() + 1 + j)] == rest[w.len() + 1 + j]);
            }
        }
        lemma_words_of_join(s, b + 1, ws, k + 1);
        assert(skip_space(s, b) == skip_space(s, b + 1));
        lemma_skip_bounds(s, b + 1);
        assert(words_from(s, b) == words_from(s, b + 1));
        assert(ws.skip(k) =~= seq![w] + ws.skip(k + 1));
    }
}

proof fn lemma_title_word(w: Seq<char>)
    requires
        is_word(w),
        all_ascii(w),
    ensures
        is_word(title_word(w)),
        all_ascii(title_word(w)),
        title_word(title_word(w)) == title_word(w),
{
    let first = w.take(1);
    let rest = w.skip(1);
    assert forall|i: int| 0 <= i < first.len() implies is_ascii(#[trigger] first[i]) by {
        assert(is_ascii(w[i]));
    }
    assert forall|i: int| 0 <= i < rest.len() implies is_ascii(#[trigger] rest[i]) by {
        assert(is_ascii(w[i + 1]));
    }
    lemma_case_twice(first);
    lemma_case_twice(rest);
    let t = title_word(w);
    assert(t == upper(first) + lower(rest));
    assert(t.take(1) =~= upper(first));
    assert(t.skip(1) =~= lower(rest));
    assert forall|i: int| 0 <= i < t.len() implies !is_space(#[trigger] t[i]) && is_ascii(t[i]) by {
        assert(!is_space(w[i]) && is_ascii(w[i]));
        if i == 0 {
            assert(t[0] == upper_char(first[0]));
        } else {
            assert(t[i] == lower_char(rest[i - 1]));
        }
    }
    assert(title_word(t) =~= t);
}

proof fn lemma_title_twice(s: Seq<char>)
    requires
        all_ascii(s),
    ensures
        titled(titled(s)) == titled(s),
{
    lemma_words_from(s, 0);
    let ws = words(s);
    let ts = Seq::new(ws.len(), |i: int| title_word(ws[i]));
    assert forall|i: int| 0 <= i < ts.len() implies is_word(#[trigger] ts[i]) && title_word(ts[i])
        == ts[i] by {
        lemma_title_word(ws[i]);
    }
    let t = titled(s);
    assert(t == join(ts, " "@));
    if ts.len() > 0 {
        assert(t.skip(0) =~= t);
        assert(ts.skip(0) =~= ts);
        lemma_words_of_join(t, 0, ts, 0);
        assert(words(t) == ts);
    } else {
        assert(t =~= Seq::<char>::empty());
        assert(words(t) =~= Seq::<Seq<char>>::empty());
        assert(words(t) =~= ts);
    }
    assert(Seq::new(words(t).len(), |i: int| title_word(words(t)[i])) =~= ts);
}

/// An operation on texts changes nothing more the second time.
proof fn lemma_text_twice(op: Seq<char>, s: Seq<char>)
    requires
        all_ascii(s),
    ensures
        text_after(op, text_after(op, s)) == text_after(op, s),
{
    lemma_case_twice(s);
    lemma_trim_twice(s);
    lemma_title_twice(s);
}

/// A sheet with a column put through an operation in place.
pub open spec fn transformed(
    rows: RowsView,
    header: bool,
    c: int,
    op: Seq<char>,
    computed: Seq<Option<Json>>,
) -> RowsView {
    let start = data_start(header, rows);
    with_replacements(rows, start, c, None, new_values(rows, start, c, op, computed))
}

/// An operation changes a column only: the header and every other cell stay, as does each
/// cell that is no number where the operation is one on numbers.
pub proof fn transforming_keeps_the_rest(
    rows: RowsView,
    header: bool,
    c: int,
    op: Seq<char>,
    computed: Seq<Option<Json>>,
    i: int,
    k: int,
)
    requires
        0 <= c,
        0 <= i < rows.len(),
    ensures
        transformed(rows, header, c, op, computed).len() == rows.len(),
        i < data_start(header, rows) ==> transformed(rows, header, c, op, computed)[i] == rows[i],
        k != c ==> cell_at(transformed(rows, header, c, op, computed)[i], k) == cell_at(
            rows[i],
            k,
        ),
        !is_text_op(op) && i >= data_start(header, rows) && i - data_start(header, rows)
            < computed.len() && computed[i - data_start(header, rows)] is None ==> cell_at(
            transformed(rows, header, c, op, computed)[i],
            c,
        ) == cell_at(rows[i], c),
{
}

/// An operation on a column changes nothing more the second time: one on ASCII texts, and
/// one on numbers where what is computed of its results are these results again.
pub proof fn transforming_twice_changes_no_more(
    rows: RowsView,
    header: bool,
    c: int,
    op: Seq<char>,
    computed: Seq<Option<Json>>,
)
    requires
        0 <= c,
        is_text_op(op) ==> forall|i: int|
            0 <= i < rows.len() ==> all_ascii(cell_text(cell_at(#[trigger] rows[i], c))),
    ensures
        transformed(transformed(rows, header, c, op, computed), header, c, op, computed)
            == transformed(rows, header, c, op, computed),
{
    let start = data_start(header, rows);
    let once = transformed(rows, header, c, op, computed);
    let twice = transformed(once, header, c, op, computed);
    assert(once.len() == rows.len());
    assert(data_start(header, once) == start);
    let first = new_values(rows, start, c, op, computed);
    let second = new_values(once, start, c, op, computed);
    assert forall|i: int| 0 <= i < rows.len() implies twice[i] == once[i] by {
        if i >= start {
            let v = put_value(rows[i], c, first, i - start);
            assert(once[i] == grown_row(rows[i], c + 1).update(c, v));
            assert(cell_at(once[i], c) == v);
            if is_text_op(op) {
                lemma_text_twice(op, cell_text(cell_at(rows[i], c)));
            }
            assert(put_value(once[i], c, second, i - start) == v);
            assert(twice[i] =~= once[i]);
        }
    }
    assert(twice =~= once);
}

/// Each operation on ASCII texts does what its name says: the letters become large or small,
/// or what is white at the ends goes; and a title has the words of the text, each with a large
/// letter before small ones, with one blank between them.
pub proof fn operations_do_what_they_say(s: Seq<char>, i: int)
    requires
        all_ascii(s),
        0 <= i,
    ensures
        text_after("upper"@, s).len() == s.len(),
        i < s.len() ==> text_after("upper"@, s)[i] == if 'a' <= s[i] <= 'z' {
            (s[i] as u32 - 32) as char
        } else {
            s[i]
        },
        text_after("lower"@, s).len() == s.len(),
        i < s.len() ==> text_after("lower"@, s)[i] == if 'A' <= s[i] <= 'Z' {
            (s[i] as u32 + 32) as char
        } else {
            s[i]
        },
        exists|a: int, b: int|
            #![trigger s.subrange(a, b)]
            0 <= a <= b <= s.len() && text_after("trim"@, s) == s.subrange(a, b) && (forall|k: int|
                0 <= k < a || b <= k < s.len() ==> is_space(#[trigger] s[k])) && (a < b
                ==> !is_space(s[a]) && !is_space(s[b - 1])),
        ({
            let ts = words(text_after("title"@, s));
            &&& ts.len() == words(s).len()
            &&& i < ts.len() ==> {
                &&& ts[i].len() == words(s)[i].len()
                &&& ts[i].len() > 0
                &&& ts[i][0] == upper_char(words(s)[i][0])
                &&& ts[i].skip(1) == lower(words(s)[i].skip(1))
            }
            &&& text_after("title"@, s) == join(ts, " "@)
        }),
{
    reveal_strlit("upper");
    reveal_strlit("lower");
    reveal_strlit("trim");
    reveal_strlit("title");
    assert("upper"@[0] != "lower"@[0]);
    assert("upper"@[0] != "trim"@[0]);
    assert("lower"@[0] != "trim"@[0]);
    assert("title"@.len() != "trim"@.len());
    assert("title"@[0] != "upper"@[0]);
    assert("title"@[0] != "lower"@[0]);
    lemma_trim_ends(s);
    let a = skip_space(s, 0);
    let b = back_space(s, a, s.len() as int);
    assert(trim(s) == s.subrange(a, b));
    lemma_title_words(s);
    if i < words(s).len() {
        lemma_words_from(s, 0);
        let w = words(s)[i];
        assert(is_word(w));
        assert(all_ascii(w));
        lemma_title_word(w);
        let first = w.take(1);
        assert forall|k: int| 0 <= k < first.len() implies is_ascii(#[trigger] first[k]) by {
            assert(is_ascii(w[k]));
        }
        let rest = w.skip(1);
        assert forall|k: int| 0 <= k < rest.len() implies is_ascii(#[trigger] rest[k]) by {
            assert(is_ascii(w[k + 1]));
        }
        let t = title_word(w);
        assert(t == upper(first) + lower(rest));
        assert(t.skip(1) =~= lower(rest));
        assert(t[0] == upper_char(first[0]));
    }
}

proof fn lemma_title_words(s: Seq<char>)
    requires
        all_ascii(s),
    ensures
        words(titled(s)) == Seq::new(words(s).len(), |i: int| title_word(words(s)[i])),
        titled(s) == join(words(titled(s)), " "@),
{
    lemma_words_from(s, 0);
    let ws = words(s);
    let ts = Seq::new(ws.len(), |i: int| title_word(ws[i]));
    assert forall|i: int| 0 <= i < ts.len() implies is_word(#[trigger] ts[i]) by {
        lemma_title_word(ws[i]);
    }
    let t = titled(s);
    assert(t == join(ts, " "@));
    if ts.len() > 0 {
        assert(t.skip(0) =~= t);
        assert(ts.skip(0) =~= ts);
        lemma_words_of_join(t, 0, ts, 0);
    } else {
        assert(t =~= Seq::<char>::empty());
        assert(words(t) =~= ts);
    }
}

proof fn lemma_white_before(s: Seq<char>, i: int)
    requires
        0 <= i <= s.len(),
    ensures
        i <= skip_space(s, i) <= s.len(),
        forall|k: int| i <= k < skip_space(s, i) ==> is_space(#[trigger] s[k]),
        skip_space(s, i) < s.len() ==> !is_space(s[skip_space(s, i)]),
    decreases s.len() - i,
{
    if i < s.len() && is_space(s[i]) {
        lemma_white_before(s, i + 1);
    }
}

proof fn lemma_white_behind(s: Seq<char>, i: int, j: int)
    requires
        0 <= i <= j <= s.len(),
    ensures
        i <= back_space(s, i, j) <= j,
        forall|k: int| back_space(s, i, j) <= k < j ==> is_space(#[trigger] s[k]),
        i < back_space(s, i, j) ==> !is_space(s[back_space(s, i, j) - 1]),
    decreases j - i,
{
    if i < j && is_space(s[j - 1]) {
        lemma_white_behind(s, i, j - 1);
    }
}

proof fn lemma_trim_ends(s: Seq<char>)
    ensures
        ({
            let a = skip_space(s, 0);
            let b = back_space(s, a, s.len() as int);
            &&& 0 <= a <= b <= s.len()
            &&& forall|k: int| 0 <= k < a || b <= k < s.len() ==> is_space(#[trigger] s[k])
            &&& a < b ==> !is_space(s[a]) && !is_space(s[b - 1])
        }),
{
    lemma_white_before(s, 0);
    lemma_white_behind(s, skip_space(s, 0), s.len() as int);
}

/// A cell below the header holds what the operation makes of what it shows, or what was
/// computed of its number.
pub proof fn transforming_reaches_every_row(
    rows: RowsView,
    header: bool,
    c: int,
    op: Seq<char>,
    computed: Seq<Option<Json>>,
    i: int,
)
    requires
        0 <= c,
        0 <= i < rows.len(),
        !header || i > 0,
    ensures
        op == "upper"@ || op == "lower"@ || op == "trim"@ || op == "title"@ ==> cell_at(
            transformed(rows, header, c, op, computed)[i],
            c,
        ) == Json::Text(text_after(op, cell_text(cell_at(rows[i], c)))),
        !is_text_op(op) && computed.len() == rows.len() - data_start(header, rows) && computed[i
            - data_start(header, rows)] is Some ==> cell_at(
            transformed(rows, header, c, op, computed)[i],
            c,
        ) == computed[i - data_start(header, rows)]->0,
{
}

} // verus!
