//! Slides put together anew: merged, reordered, split, counted and searched.

use crate::deep::push_deep;
use crate::ordering::{occurs_in, without_case};
use crate::paths::{file_name, name_stem, stem_of};
use crate::slides::{SlideText, SlideView};
use crate::text::{
    concat3, contains_text, copy_text, decimal, has_text, join, join_texts, lowercase, push_decimal,
    text_words, texts_are_found_first, to_lowercase, words,
};
use crate::value::{
    add_member, array, as_array, as_bool, as_text, as_u64, cell_text, cell_to_string, copy_values,
    count_value, field, object, req_str, required_text, text_value, Json, Num, Number, Value,
};
use vstd::prelude::*;

verus! {

/// Texts as a JSON array.
pub open spec fn text_array(ts: Seq<Seq<char>>) -> Json {
    Json::Array(Seq::new(ts.len(), |i: int| Json::Text(ts[i])))
}

/// The texts `from` onwards as a JSON array.
pub fn make_text_array(ts: &Vec<String>, from: usize) -> (r: Value)
    requires
        from <= ts@.len(),
    ensures
        r.deep_view() == text_array(ts.deep_view().skip(from as int)),
{
    let mut out: Vec<Value> = Vec::new();
    let ghost want = text_array(ts.deep_view().skip(from as int))->Array_0;
    let mut i: usize = from;
    while i < ts.len()
        invariant
            from <= i <= ts@.len(),
            want == text_array(ts.deep_view().skip(from as int))->Array_0,
            out.deep_view() == want.take(i - from),
        decreases ts@.len() - i,
    {
        assert(ts.deep_view().skip(from as int)[i - from] == ts@[i as int]@);
        push_deep(&mut out, text_value(ts[i].as_str()));
        i = i + 1;
        assert(out.deep_view() =~= want.take(i - from));
    }
    assert(want.take(i - from) =~= want);
    array(out)
}

/// The title and body of a slide description.
pub open spec fn slide_object(title: Seq<char>, body: Json) -> Json {
    Json::Object(seq![("title"@, Json::Text(title)), ("body"@, body)])
}

/// The description of a slide with these lines: the first is the title, the rest
/// the body.
pub open spec fn slide_spec(text: Seq<Seq<char>>) -> Json {
    if text.len() == 0 {
        slide_object(Seq::empty(), text_array(text))
    } else {
        slide_object(text[0], text_array(text.skip(1)))
    }
}

pub fn describe_slide(text: &Vec<String>) -> (r: Value)
    ensures
        r.deep_view() == slide_spec(text.deep_view()),
{
    let mut o: Vec<(String, Value)> = Vec::new();
    if text.len() == 0 {
        add_member(&mut o, "title", Value::Text(String::new()));
        add_member(&mut o, "body", make_text_array(text, 0));
        assert(text.deep_view().skip(0) =~= text.deep_view());
        assert(o.deep_view() =~= slide_spec(text.deep_view())->Object_0);
    } else {
        assert(text.deep_view()[0] == text@[0]@);
        add_member(&mut o, "title", text_value(text[0].as_str()));
        add_member(&mut o, "body", make_text_array(text, 1));
        assert(o.deep_view() =~= slide_spec(text.deep_view())->Object_0);
    }
    object(o)
}

/// The descriptions of slides.
pub open spec fn slide_specs(slides: Seq<SlideView>) -> Seq<Json> {
    Seq::new(slides.len(), |i: int| slide_spec(slides[i].0))
}

fn push_specs(out: &mut Vec<Value>, slides: &Vec<SlideText>)
    ensures
        final(out).deep_view() == old(out).deep_view() + slide_specs(slides.deep_view()),
{
    let ghost before = out.deep_view();
    let ghost all = slide_specs(slides.deep_view());
    let mut i: usize = 0;
    assert(out.deep_view() =~= before + all.take(0));
    while i < slides.len()
        invariant
            i <= slides@.len(),
            all == slide_specs(slides.deep_view()),
            out.deep_view() == before + all.take(i as int),
        decreases slides@.len() - i,
    {
        assert(slides.deep_view()[i as int] == (
            slides@[i as int].0.deep_view(),
            slides@[i as int].1.deep_view(),
        ));
        push_deep(out, describe_slide(&slides[i].0));
        i = i + 1;
        assert(out.deep_view() =~= before + all.take(i as int));
    }
    assert(all.take(i as int) =~= all);
}

/// The descriptions of the slides of the first `n` decks, one deck after the other.
pub open spec fn merged_specs(decks: Seq<Seq<SlideView>>, n: nat) -> Seq<Json>
    decreases n,
{
    if n == 0 || n > decks.len() {
        Seq::empty()
    } else {
        merged_specs(decks, (n - 1) as nat) + slide_specs(decks[n - 1])
    }
}

/// The slides of several decks, one deck after the other.
pub fn op_slides_merge(decks: &Vec<Vec<SlideText>>) -> (r: Vec<Value>)
    ensures
        r.deep_view() == merged_specs(decks.deep_view(), decks@.len()),
{
    let mut out: Vec<Value> = Vec::new();
    let mut i: usize = 0;
    assert(out.deep_view() =~= Seq::<Json>::empty());
    while i < decks.len()
        invariant
            i <= decks@.len(),
            out.deep_view() == merged_specs(decks.deep_view(), i as nat),
        decreases decks@.len() - i,
    {
        assert(decks.deep_view()[i as int] == decks@[i as int].deep_view());
        push_specs(&mut out, &decks[i]);
        i = i + 1;
    }
    out
}

/// The slides of a deck followed by further slide descriptions.
pub fn op_slides_append(slides: &Vec<SlideText>, add: &Vec<Value>) -> (r: Vec<Value>)
    ensures
        r.deep_view() == slide_specs(slides.deep_view()) + add.deep_view(),
{
    let mut out: Vec<Value> = Vec::new();
    push_specs(&mut out, slides);
    let ghost head = slide_specs(slides.deep_view());
    let mut i: usize = 0;
    assert(out.deep_view() =~= head + add.deep_view().take(0));
    while i < add.len()
        invariant
            i <= add@.len(),
            out.deep_view() == head + add.deep_view().take(i as int),
        decreases add@.len() - i,
    {
        push_deep(&mut out, add[i].dup());
        i = i + 1;
        assert(add.deep_view()[i - 1] == add@[i - 1].deep_view());
        assert(out.deep_view() =~= head + add.deep_view().take(i as int));
    }
    assert(add.deep_view().take(i as int) =~= add.deep_view());
    out
}

// ── reordering ──────────────────────────────────────────────────────────────

/// The unsigned numbers among the first `n` items.
pub open spec fn numbers_among(a: Seq<Json>, n: nat) -> Seq<u64>
    decreases n,
{
    if n == 0 || n > a.len() {
        Seq::empty()
    } else {
        let before = numbers_among(a, (n - 1) as nat);
        match as_u64(Some(a[n - 1])) {
            Some(v) => before.push(v),
            None => before,
        }
    }
}

/// The unsigned numbers among the items of an array.
pub fn read_numbers(a: &Vec<Value>) -> (r: Vec<u64>)
    ensures
        r@ == numbers_among(a.deep_view(), a@.len()),
{
    let mut out: Vec<u64> = Vec::new();
    let mut i: usize = 0;
    while i < a.len()
        invariant
            i <= a@.len(),
            out@ == numbers_among(a.deep_view(), i as nat),
        decreases a@.len() - i,
    {
        assert(a.deep_view()[i as int] == a@[i as int].deep_view());
        match a[i].as_u64() {
            Some(v) => {
                out.push(v);
            },
            None => {},
        }
        i = i + 1;
    }
    out
}

/// The order of slides that the options ask for.
pub open spec fn wanted_order(opts: Json) -> Result<Seq<u64>, Seq<char>> {
    match as_array(field(opts, "order"@)) {
        None => Err("missing order (array of 1-based slide numbers)"@),
        Some(a) => if numbers_among(a, a.len()).len() == 0 {
            Err("order must list at least one slide"@)
        } else {
            Ok(numbers_among(a, a.len()))
        },
    }
}

pub fn slide_order(opts: &Value) -> (r: Result<Vec<u64>, String>)
    ensures
        match r {
            Ok(v) => wanted_order(opts.deep_view()) == Ok::<Seq<u64>, Seq<char>>(v@),
            Err(e) => wanted_order(opts.deep_view()) == Err::<Seq<u64>, Seq<char>>(e@),
        },
{
    match opts.array_at("order") {
        None => Err(copy_text("missing order (array of 1-based slide numbers)")),
        Some(a) => {
            let order = read_numbers(a);
            if order.len() == 0 {
                Err(copy_text("order must list at least one slide"))
            } else {
                Ok(order)
            }
        },
    }
}

/// The slides that the first `n` numbers, counted from 1, name; a number that
/// names none is passed over.
pub open spec fn picked_specs(slides: Seq<SlideView>, order: Seq<u64>, n: nat) -> Seq<Json>
    decreases n,
{
    if n == 0 || n > order.len() {
        Seq::empty()
    } else {
        let before = picked_specs(slides, order, (n - 1) as nat);
        if 1 <= order[n - 1] <= slides.len() {
            before.push(slide_spec(slides[order[n - 1] - 1].0))
        } else {
            before
        }
    }
}

/// The slides in the given order; those that it leaves out are dropped.
pub fn op_slides_reorder(slides: &Vec<SlideText>, order: &Vec<u64>) -> (r: Result<
    Vec<Value>,
    String,
>)
    ensures
        match r {
            Ok(v) => v@.len() > 0 && v.deep_view() == picked_specs(
                slides.deep_view(),
                order@,
                order@.len(),
            ),
            Err(e) => e@ == "order referenced no existing slides"@ && picked_specs(
                slides.deep_view(),
                order@,
                order@.len(),
            ).len() == 0,
        },
{
    let mut out: Vec<Value> = Vec::new();
    let mut i: usize = 0;
    assert(out.deep_view() =~= Seq::<Json>::empty());
    while i < order.len()
        invariant
            i <= order@.len(),
            out.deep_view() == picked_specs(slides.deep_view(), order@, i as nat),
        decreases order@.len() - i,
    {
        let n = order[i];
        if 1 <= n && n <= slides.len() as u64 {
            let k: usize = (n - 1) as usize;
            assert(slides.deep_view()[k as int] == (
                slides@[k as int].0.deep_view(),
                slides@[k as int].1.deep_view(),
            ));
            push_deep(&mut out, describe_slide(&slides[k].0));
        }
        i = i + 1;
    }
    if out.len() == 0 {
        Err(copy_text("order referenced no existing slides"))
    } else {
        Ok(out)
    }
}

/// Asking for all slides in their own order gives all slides in their own order.
pub proof fn natural_order_keeps_all(slides: Seq<SlideView>, order: Seq<u64>)
    requires
        order.len() == slides.len(),
        forall|i: int| 0 <= i < order.len() ==> #[trigger] order[i] == i + 1,
    ensures
        picked_specs(slides, order, order.len()) == slide_specs(slides),
{
    lemma_natural_order(slides, order, order.len());
    assert(slide_specs(slides).take(slides.len() as int) =~= slide_specs(slides));
}

proof fn lemma_natural_order(slides: Seq<SlideView>, order: Seq<u64>, n: nat)
    requires
        order.len() == slides.len(),
        forall|i: int| 0 <= i < order.len() ==> #[trigger] order[i] == i + 1,
        n <= order.len(),
    ensures
        picked_specs(slides, order, n) == slide_specs(slides).take(n as int),
    decreases n,
{
    if n > 0 {
        lemma_natural_order(slides, order, (n - 1) as nat);
        assert(order[n - 1] == n);
        assert(slide_specs(slides).take(n as int) =~= slide_specs(slides).take(n - 1).push(
            slide_spec(slides[n - 1].0),
        ));
    } else {
        assert(slide_specs(slides).take(0) =~= Seq::<Json>::empty());
    }
}

// ── splitting into files ────────────────────────────────────────────────────

/// The path of part `i` of a file that is split up.
pub open spec fn numbered_path(dir: Seq<char>, prefix: Seq<char>, i: int, ext: Seq<char>) -> Seq<
    char,
> {
    dir + "/"@ + prefix + "-"@ + decimal((i + 1) as nat) + "."@ + ext
}

pub fn part_path(dir: &str, prefix: &str, i: usize, ext: &str) -> (r: String)
    requires
        i < usize::MAX,
    ensures
        r@ == numbered_path(dir@, prefix@, i as int, ext@),
{
    let mut out = concat3(dir, "/", prefix);
    out.push_str("-");
    push_decimal(&mut out, (i + 1) as u64);
    out.push_str(".");
    out.push_str(ext);
    out
}

/// The file-name stem to number: the one that the options give, else that of the
/// source, else a default.
pub open spec fn wanted_prefix(opts: Json, path: Seq<char>, default: Seq<char>) -> Seq<char> {
    match as_text(field(opts, "prefix"@)) {
        Some(p) => p,
        None => match file_name(path) {
            Some(n) => name_stem(n),
            None => default,
        },
    }
}

pub fn split_prefix(opts: &Value, path: &str, default: &str) -> (r: String)
    ensures
        r@ == wanted_prefix(opts.deep_view(), path@, default@),
{
    match opts.text_at("prefix") {
        Some(p) => copy_text(p),
        None => match stem_of(path) {
            Some(s) => s,
            None => copy_text(default),
        },
    }
}

/// The files that a deck is split into: one path and one slide each.
pub open spec fn split_files(
    slides: Seq<SlideView>,
    dir: Seq<char>,
    prefix: Seq<char>,
    ext: Seq<char>,
) -> Seq<(Seq<char>, Json)> {
    Seq::new(
        slides.len(),
        |i: int| (numbered_path(dir, prefix, i, ext), slide_spec(slides[i].0)),
    )
}

pub fn op_slides_split(slides: &Vec<SlideText>, dir: &str, prefix: &str, ext: &str) -> (r: Vec<
    (String, Value),
>)
    ensures
        r.deep_view() == split_files(slides.deep_view(), dir@, prefix@, ext@),
{
    let mut out: Vec<(String, Value)> = Vec::new();
    let ghost all = split_files(slides.deep_view(), dir@, prefix@, ext@);
    let mut i: usize = 0;
    while i < slides.len()
        invariant
            i <= slides@.len(),
            all == split_files(slides.deep_view(), dir@, prefix@, ext@),
            out.deep_view() == all.take(i as int),
        decreases slides@.len() - i,
    {
        assert(slides.deep_view()[i as int] == (
            slides@[i as int].0.deep_view(),
            slides@[i as int].1.deep_view(),
        ));
        let path = part_path(dir, prefix, i, ext);
        let slide = describe_slide(&slides[i].0);
        let ghost item = (path@, slide.deep_view());
        push_deep(&mut out, (path, slide));
        assert(out.deep_view().last() == item);
        i = i + 1;
        assert(out.deep_view() =~= all.take(i as int));
    }
    assert(all.take(i as int) =~= all);
    out
}

// ── counting ────────────────────────────────────────────────────────────────

/// The number of words in the first `n` lines.
pub open spec fn word_count(ls: Seq<Seq<char>>, n: nat) -> nat
    decreases n,
{
    if n == 0 || n > ls.len() {
        0
    } else {
        word_count(ls, (n - 1) as nat) + words(ls[n - 1]).len()
    }
}

/// The number of words on the first `n` slides, or in their notes.
pub open spec fn deck_words(slides: Seq<SlideView>, notes: bool, n: nat) -> nat
    decreases n,
{
    if n == 0 || n > slides.len() {
        0
    } else {
        deck_words(slides, notes, (n - 1) as nat) + (if notes {
            word_count(slides[n - 1].1, slides[n - 1].1.len())
        } else {
            word_count(slides[n - 1].0, slides[n - 1].0.len())
        })
    }
}

/// A count in 64 bits.
pub open spec fn in_64_bits(n: nat) -> u64 {
    (n % 0x1_0000_0000_0000_0000) as u64
}

pub(crate) fn add_count(a: u64, b: u64, Ghost(x): Ghost<nat>, Ghost(y): Ghost<nat>) -> (r: u64)
    requires
        a == in_64_bits(x),
        b == in_64_bits(y),
    ensures
        r == in_64_bits(x + y),
{
    let r = a.wrapping_add(b);
    proof {
        vstd::arithmetic::div_mod::lemma_add_mod_noop(
            x as int,
            y as int,
            0x1_0000_0000_0000_0000,
        );
    }
    r
}

fn count_words(ls: &Vec<String>) -> (r: u64)
    ensures
        r == in_64_bits(word_count(ls.deep_view(), ls@.len())),
{
    let mut total: u64 = 0;
    let mut i: usize = 0;
    while i < ls.len()
        invariant
            i <= ls@.len(),
            total == in_64_bits(word_count(ls.deep_view(), i as nat)),
        decreases ls@.len() - i,
    {
        assert(ls.deep_view()[i as int] == ls@[i as int]@);
        let w = text_words(ls[i].as_str());
        let k: u64 = w.len() as u64;
        let ghost x = word_count(ls.deep_view(), i as nat);
        let ghost y = words(ls@[i as int]@).len();
        total = add_count(total, k, Ghost(x), Ghost(y));
        i = i + 1;
    }
    total
}

pub open spec fn unsigned(n: u64) -> Json {
    Json::Number(Num::Unsigned(n))
}

/// The counts of one slide.
pub open spec fn slide_counts(s: SlideView) -> Json {
    Json::Object(
        seq![
            ("words"@, unsigned(in_64_bits(word_count(s.0, s.0.len())))),
            ("notes_words"@, unsigned(in_64_bits(word_count(s.1, s.1.len())))),
        ],
    )
}

/// The counts of a deck: slides, words, words in notes, and the same per slide.
pub open spec fn deck_counts(slides: Seq<SlideView>) -> Json {
    Json::Object(
        seq![
            ("slides"@, unsigned(slides.len() as u64)),
            ("words"@, unsigned(in_64_bits(deck_words(slides, false, slides.len())))),
            ("notes_words"@, unsigned(in_64_bits(deck_words(slides, true, slides.len())))),
            ("per_slide"@, Json::Array(Seq::new(slides.len(), |i: int| slide_counts(slides[i])))),
        ],
    )
}

pub fn op_slides_stats(slides: &Vec<SlideText>) -> (r: Value)
    ensures
        r.deep_view() == deck_counts(slides.deep_view()),
{
    let ghost sv = slides.deep_view();
    let ghost each = Seq::new(sv.len(), |i: int| slide_counts(sv[i]));
    let mut total: u64 = 0;
    let mut notes_total: u64 = 0;
    let mut per: Vec<Value> = Vec::new();
    let mut i: usize = 0;
    while i < slides.len()
        invariant
            i <= slides@.len(),
            sv == slides.deep_view(),
            each == Seq::new(sv.len(), |i: int| slide_counts(sv[i])),
            total == in_64_bits(deck_words(sv, false, i as nat)),
            notes_total == in_64_bits(deck_words(sv, true, i as nat)),
            per.deep_view() == each.take(i as int),
        decreases slides@.len() - i,
    {
        assert(sv[i as int] == (
            slides@[i as int].0.deep_view(),
            slides@[i as int].1.deep_view(),
        ));
        let w = count_words(&slides[i].0);
        let nw = count_words(&slides[i].1);
        let ghost s = sv[i as int];
        total = add_count(
            total,
            w,
            Ghost(deck_words(sv, false, i as nat)),
            Ghost(word_count(s.0, s.0.len())),
        );
        notes_total = add_count(
            notes_total,
            nw,
            Ghost(deck_words(sv, true, i as nat)),
            Ghost(word_count(s.1, s.1.len())),
        );
        let mut o: Vec<(String, Value)> = Vec::new();
        add_member(&mut o, "words", Value::Number(Number::Unsigned(w)));
        add_member(&mut o, "notes_words", Value::Number(Number::Unsigned(nw)));
        assert(o.deep_view() =~= slide_counts(s)->Object_0);
        push_deep(&mut per, object(o));
        i = i + 1;
        assert(per.deep_view() =~= each.take(i as int));
    }
    assert(each.take(i as int) =~= each);
    let mut o: Vec<(String, Value)> = Vec::new();
    add_member(&mut o, "slides", count_value(slides.len()));
    add_member(&mut o, "words", Value::Number(Number::Unsigned(total)));
    add_member(&mut o, "notes_words", Value::Number(Number::Unsigned(notes_total)));
    add_member(&mut o, "per_slide", array(per));
    assert(o.deep_view() =~= deck_counts(sv)->Object_0);
    object(o)
}

// ── searching ───────────────────────────────────────────────────────────────

/// What is searched for, and whether case counts.
pub open spec fn wanted_query(opts: Json) -> Result<(Seq<char>, bool), Seq<char>> {
    match required_text(opts, "query"@) {
        Err(e) => Err(e),
        Ok(q) => if q.len() == 0 {
            Err("empty query"@)
        } else {
            let ic = as_bool(field(opts, "ignore_case"@)) == Some(true);
            Ok((
                if ic {
                    lowercase(q)
                } else {
                    q
                },
                ic,
            ))
        },
    }
}

pub fn read_query(opts: &Value) -> (r: Result<(String, bool), String>)
    ensures
        match r {
            Ok(q) => wanted_query(opts.deep_view()) == Ok::<(Seq<char>, bool), Seq<char>>(
                (q.0@, q.1),
            ),
            Err(e) => wanted_query(opts.deep_view()) == Err::<(Seq<char>, bool), Seq<char>>(e@),
        },
{
    match req_str(opts, "query") {
        Err(e) => Err(e),
        Ok(q) => {
            if crate::text::chars_of(q).len() == 0 {
                return Err(copy_text("empty query"));
            }
            let ic = match opts.bool_at("ignore_case") {
                Some(b) => b,
                None => false,
            };
            if ic {
                Ok((to_lowercase(q), ic))
            } else {
                Ok((copy_text(q), ic))
            }
        },
    }
}

/// A line as it is searched.
pub open spec fn haystack(line: Seq<char>, ignore_case: bool) -> Seq<char> {
    if ignore_case {
        lowercase(line)
    } else {
        line
    }
}

pub fn make_haystack(line: &str, ignore_case: bool) -> (r: String)
    ensures
        r@ == haystack(line@, ignore_case),
{
    if ignore_case {
        to_lowercase(line)
    } else {
        copy_text(line)
    }
}

/// A line in which the query was found: the slide counted from 1, and whether it
/// stands in the text or in the notes.
pub open spec fn slide_match(slide: int, place: Seq<char>, line: Seq<char>) -> Json {
    Json::Object(
        seq![
            ("slide"@, unsigned((slide + 1) as u64)),
            ("where"@, Json::Text(place)),
            ("value"@, Json::Text(line)),
        ],
    )
}

/// The matches among the first `n` lines.
pub open spec fn line_matches(
    ls: Seq<Seq<char>>,
    needle: Seq<char>,
    ic: bool,
    slide: int,
    place: Seq<char>,
    n: nat,
) -> Seq<Json>
    decreases n,
{
    if n == 0 || n > ls.len() {
        Seq::empty()
    } else {
        let before = line_matches(ls, needle, ic, slide, place, (n - 1) as nat);
        if contains_text(haystack(ls[n - 1], ic), needle) {
            before.push(slide_match(slide, place, ls[n - 1]))
        } else {
            before
        }
    }
}

/// The matches on the first `n` slides: text before notes.
pub open spec fn deck_matches(slides: Seq<SlideView>, needle: Seq<char>, ic: bool, n: nat) -> Seq<
    Json,
>
    decreases n,
{
    if n == 0 || n > slides.len() {
        Seq::empty()
    } else {
        let s = slides[n - 1];
        deck_matches(slides, needle, ic, (n - 1) as nat) + line_matches(
            s.0,
            needle,
            ic,
            n - 1,
            "text"@,
            s.0.len(),
        ) + line_matches(s.1, needle, ic, n - 1, "notes"@, s.1.len())
    }
}

fn push_line_matches(
    out: &mut Vec<Value>,
    ls: &Vec<String>,
    needle: &str,
    ic: bool,
    slide: usize,
    place: &str,
)
    requires
        slide < usize::MAX,
    ensures
        final(out).deep_view() == old(out).deep_view() + line_matches(
            ls.deep_view(),
            needle@,
            ic,
            slide as int,
            place@,
            ls@.len(),
        ),
{
    let ghost before = out.deep_view();
    let mut i: usize = 0;
    assert(out.deep_view() =~= before + line_matches(
        ls.deep_view(),
        needle@,
        ic,
        slide as int,
        place@,
        0,
    ));
    while i < ls.len()
        invariant
            i <= ls@.len(),
            slide < usize::MAX,
            out.deep_view() == before + line_matches(
                ls.deep_view(),
                needle@,
                ic,
                slide as int,
                place@,
                i as nat,
            ),
        decreases ls@.len() - i,
    {
        assert(ls.deep_view()[i as int] == ls@[i as int]@);
        let hay = make_haystack(ls[i].as_str(), ic);
        if has_text(hay.as_str(), needle) {
            let mut o: Vec<(String, Value)> = Vec::new();
            add_member(&mut o, "slide", count_value(slide + 1));
            add_member(&mut o, "where", text_value(place));
            add_member(&mut o, "value", text_value(ls[i].as_str()));
            assert(o.deep_view() =~= slide_match(slide as int, place@, ls@[i as int]@)->Object_0);
            push_deep(out, object(o));
        }
        i = i + 1;
        assert(out.deep_view() =~= before + line_matches(
            ls.deep_view(),
            needle@,
            ic,
            slide as int,
            place@,
            i as nat,
        ));
    }
}

/// The lines of a deck in which the query occurs, as `{ count, matches }`.
pub open spec fn found_in_deck(slides: Seq<SlideView>, needle: Seq<char>, ic: bool) -> Json {
    let m = deck_matches(slides, needle, ic, slides.len());
    Json::Object(seq![("count"@, unsigned(m.len() as u64)), ("matches"@, Json::Array(m))])
}

pub fn op_slides_find(slides: &Vec<SlideText>, needle: &str, ignore_case: bool) -> (r: Value)
    ensures
        r.deep_view() == found_in_deck(slides.deep_view(), needle@, ignore_case),
{
    let mut out: Vec<Value> = Vec::new();
    let ghost sv = slides.deep_view();
    let mut i: usize = 0;
    assert(out.deep_view() =~= Seq::<Json>::empty());
    while i < slides.len()
        invariant
            i <= slides@.len(),
            sv == slides.deep_view(),
            out.deep_view() == deck_matches(sv, needle@, ignore_case, i as nat),
        decreases slides@.len() - i,
    {
        assert(sv[i as int] == (
            slides@[i as int].0.deep_view(),
            slides@[i as int].1.deep_view(),
        ));
        push_line_matches(&mut out, &slides[i].0, needle, ignore_case, i, "text");
        push_line_matches(&mut out, &slides[i].1, needle, ignore_case, i, "notes");
        i = i + 1;
    }
    let mut o: Vec<(String, Value)> = Vec::new();
    add_member(&mut o, "count", count_value(out.len()));
    add_member(&mut o, "matches", array(out));
    assert(o.deep_view() =~= found_in_deck(sv, needle@, ignore_case)->Object_0);
    object(o)
}

// ── slide descriptions ──────────────────────────────────────────────────────

/// The title and the body items of a slide description.
pub open spec fn described(s: Json) -> (Seq<char>, Seq<Json>) {
    (
        match as_text(field(s, "title"@)) {
            Some(t) => t,
            None => Seq::empty(),
        },
        match as_array(field(s, "body"@)) {
            Some(b) => b,
            None => Seq::empty(),
        },
    )
}

/// The slides that the options describe.
pub open spec fn described_slides(opts: Json) -> Result<Seq<(Seq<char>, Seq<Json>)>, Seq<char>> {
    match as_array(field(opts, "slides"@)) {
        None => Err("missing slides (expected array)"@),
        Some(a) => Ok(Seq::new(a.len(), |i: int| described(a[i]))),
    }
}

pub fn json_slides(opts: &Value) -> (r: Result<Vec<(String, Vec<Value>)>, String>)
    ensures
        match r {
            Ok(v) => described_slides(opts.deep_view()) == Ok::<
                Seq<(Seq<char>, Seq<Json>)>,
                Seq<char>,
            >(v.deep_view()),
            Err(e) => described_slides(opts.deep_view()) == Err::<
                Seq<(Seq<char>, Seq<Json>)>,
                Seq<char>,
            >(e@),
        },
{
    let a = match opts.array_at("slides") {
        Some(a) => a,
        None => {
            return Err(copy_text("missing slides (expected array)"));
        },
    };
    let ghost all = Seq::new(a.deep_view().len(), |i: int| described(a.deep_view()[i]));
    let mut out: Vec<(String, Vec<Value>)> = Vec::new();
    let mut i: usize = 0;
    while i < a.len()
        invariant
            i <= a@.len(),
            all == Seq::new(a.deep_view().len(), |i: int| described(a.deep_view()[i])),
            out.deep_view() == all.take(i as int),
        decreases a@.len() - i,
    {
        assert(a.deep_view()[i as int] == a@[i as int].deep_view());
        let title = match a[i].text_at("title") {
            Some(t) => copy_text(t),
            None => String::new(),
        };
        let body = match a[i].array_at("body") {
            Some(b) => copy_values(b),
            None => {
                let none: Vec<Value> = Vec::new();
                assert(none.deep_view() =~= Seq::<Json>::empty());
                none
            },
        };
        let ghost item = (title@, body.deep_view());
        push_deep(&mut out, (title, body));
        assert(out.deep_view().last() == item);
        i = i + 1;
        assert(out.deep_view() =~= all.take(i as int));
    }
    assert(all.take(i as int) =~= all);
    Ok(out)
}

/// The text of a body item: that of an object, or the item itself.
pub open spec fn item_text(v: Json) -> Seq<char> {
    if v is Object {
        match field(v, "text"@) {
            Some(t) => cell_text(t),
            None => Seq::empty(),
        }
    } else {
        cell_text(v)
    }
}

pub fn slide_item_text(v: &Value) -> (r: String)
    ensures
        r@ == item_text(v.deep_view()),
{
    if v.is_object() {
        match v.get("text") {
            Some(t) => cell_to_string(t),
            None => String::new(),
        }
    } else {
        cell_to_string(v)
    }
}

/// The text of the one text box that a slide has in an odp.
pub open spec fn box_text(title: Seq<char>, body: Seq<Json>) -> Seq<char> {
    if body.len() == 0 {
        title
    } else {
        (if title.len() == 0 {
            title
        } else {
            title.push('\n')
        }) + join(Seq::new(body.len(), |i: int| item_text(body[i])), "\n"@)
    }
}

pub fn odp_box_text(title: &str, body: &Vec<Value>) -> (r: String)
    ensures
        r@ == box_text(title@, body.deep_view()),
{
    let mut text = copy_text(title);
    if body.len() > 0 {
        if crate::text::chars_of(title).len() > 0 {
            text.push('\n');
        }
        let mut lines: Vec<String> = Vec::new();
        let ghost all = Seq::new(body.deep_view().len(), |i: int| item_text(body.deep_view()[i]));
        let mut i: usize = 0;
        while i < body.len()
            invariant
                i <= body@.len(),
                all == Seq::new(
                    body.deep_view().len(),
                    |i: int| item_text(body.deep_view()[i]),
                ),
                lines.deep_view() == all.take(i as int),
            decreases body@.len() - i,
        {
            assert(body.deep_view()[i as int] == body@[i as int].deep_view());
            push_deep(&mut lines, slide_item_text(&body[i]));
            i = i + 1;
            assert(lines.deep_view() =~= all.take(i as int));
        }
        assert(all.take(i as int) =~= all);
        text.push_str(join_texts(&lines, "\n").as_str());
    }
    text
}

// ── what is done to decks ───────────────────────────────────────────────────

/// What a slide is written as: its first line as the title, and the others as the body.
pub open spec fn written_slide(s: SlideView) -> Json {
    Json::Object(
        seq![
            (
                "title"@,
                Json::Text(
                    if s.0.len() > 0 {
                        s.0[0]
                    } else {
                        Seq::empty()
                    },
                ),
            ),
            (
                "body"@,
                Json::Array(
                    Seq::new(
                        (if s.0.len() > 0 {
                            s.0.len() - 1
                        } else {
                            0
                        }) as nat,
                        |i: int| Json::Text(s.0[i + 1]),
                    ),
                ),
            ),
        ],
    )
}

proof fn lemma_written(s: SlideView)
    ensures
        slide_spec(s.0) == written_slide(s),
{
    let lines = if s.0.len() == 0 {
        s.0
    } else {
        s.0.skip(1)
    };
    assert(text_array(lines)->Array_0 =~= Seq::new(
        (if s.0.len() > 0 {
            s.0.len() - 1
        } else {
            0
        }) as nat,
        |i: int| Json::Text(s.0[i + 1]),
    ));
}

/// Slides come in the order in which their numbers, counted from one, are listed; a number
/// that there is no slide of is passed over.
pub proof fn slides_come_as_listed(slides: Seq<SlideView>, order: Seq<u64>, n: nat)
    requires
        n <= order.len(),
    ensures
        picked_specs(slides, order, n) == order.take(n as int).filter(
            |k: u64| 1 <= k && k <= slides.len(),
        ).map_values(|k: u64| written_slide(slides[k - 1])),
    decreases n,
{
    reveal(Seq::filter);
    let is = |k: u64| 1 <= k && k <= slides.len();
    let get = |k: u64| written_slide(slides[k - 1]);
    let part = order.take(n as int);
    if n > 0 {
        slides_come_as_listed(slides, order, (n - 1) as nat);
        assert(part.drop_last() =~= order.take(n - 1));
        assert(part.last() == order[n - 1]);
        if is(order[n - 1]) {
            lemma_written(slides[order[n - 1] - 1]);
            assert(part.filter(is).map_values(get) =~= part.drop_last().filter(is).map_values(
                get,
            ).push(get(order[n - 1])));
        }
    } else {
        assert(part.filter(is).map_values(get) =~= Seq::<Json>::empty());
    }
}

/// Merged decks have the slides of the first, then those of the next, and so on.
pub proof fn merged_decks_follow_each_other(decks: Seq<Seq<SlideView>>, n: nat)
    requires
        n < decks.len(),
    ensures
        merged_specs(decks, 0).len() == 0,
        merged_specs(decks, n + 1) == merged_specs(decks, n) + decks[n as int].map_values(
            |s: SlideView| written_slide(s),
        ),
{
    let deck = decks[n as int];
    let all = deck.map_values(|s: SlideView| written_slide(s));
    assert forall|i: int| 0 <= i < deck.len() implies slide_specs(deck)[i] == #[trigger] all[i] by {
        lemma_written(deck[i]);
    }
    assert(slide_specs(deck) =~= all);
}

/// What is told of a line in which something was found.
pub open spec fn finding(slide: int, place: Seq<char>, line: Seq<char>) -> Json {
    Json::Object(
        seq![
            ("slide"@, Json::Number(Num::Unsigned((slide + 1) as u64))),
            ("where"@, Json::Text(place)),
            ("value"@, Json::Text(line)),
        ],
    )
}

proof fn lemma_findings(
    ls: Seq<Seq<char>>,
    needle: Seq<char>,
    ic: bool,
    slide: int,
    place: Seq<char>,
    n: nat,
)
    requires
        n <= ls.len(),
    ensures
        line_matches(ls, needle, ic, slide, place, n) == ls.take(n as int).filter(
            |l: Seq<char>| occurs_in(needle, without_case(l, ic)),
        ).map_values(|l: Seq<char>| finding(slide, place, l)),
    decreases n,
{
    reveal(Seq::filter);
    let is = |l: Seq<char>| occurs_in(needle, without_case(l, ic));
    let tell = |l: Seq<char>| finding(slide, place, l);
    let part = ls.take(n as int);
    if n > 0 {
        lemma_findings(ls, needle, ic, slide, place, (n - 1) as nat);
        assert(part.drop_last() =~= ls.take(n - 1));
        assert(part.last() == ls[n - 1]);
        let t = without_case(ls[n - 1], ic);
        texts_are_found_first(t, needle, 0);
        assert(contains_text(t, needle) == occurs_in(needle, t));
        if is(ls[n - 1]) {
            assert(part.filter(is).map_values(tell) =~= part.drop_last().filter(is).map_values(
                tell,
            ).push(tell(ls[n - 1])));
        }
    } else {
        assert(part.filter(is).map_values(tell) =~= Seq::<Json>::empty());
    }
}

/// A search tells of just the lines in which the text stands, slide by slide, the text of a
/// slide before its notes.
pub proof fn searches_tell_of_each_line(slides: Seq<SlideView>, needle: Seq<char>, ic: bool, n: nat)
    requires
        n < slides.len(),
    ensures
        deck_matches(slides, needle, ic, 0).len() == 0,
        deck_matches(slides, needle, ic, n + 1) == deck_matches(slides, needle, ic, n)
            + slides[n as int].0.filter(
            |l: Seq<char>| occurs_in(needle, without_case(l, ic)),
        ).map_values(|l: Seq<char>| finding(n as int, "text"@, l)) + slides[n as int].1.filter(
            |l: Seq<char>| occurs_in(needle, without_case(l, ic)),
        ).map_values(|l: Seq<char>| finding(n as int, "notes"@, l)),
{
    let s = slides[n as int];
    lemma_findings(s.0, needle, ic, n as int, "text"@, s.0.len());
    lemma_findings(s.1, needle, ic, n as int, "notes"@, s.1.len());
    assert(s.0.take(s.0.len() as int) =~= s.0);
    assert(s.1.take(s.1.len() as int) =~= s.1);
}

} // verus!
