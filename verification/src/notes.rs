//! The part that holds the speaker notes of a slide.

use crate::deep::push_deep;
use crate::slides::drawing_tags;
use crate::text::{chars_of, copy_text};
use crate::xml::{
    document_xml, event_text, is_plain_attr, is_plain_document, is_plain_event, is_plain_name,
    is_plain_tag, open_tags, paragraphs, paras_run, paras_step, reads_back, write_document,
    xml_items, Attr, AttrView, EventView, ParasView, Tag, TagView, XmlEvent,
};
use vstd::prelude::*;
use vstd::utf8::encode_utf8;

verus! {

// ── events ──────────────────────────────────────────────────────────────────

/// An attribute that stands for itself.
pub open spec fn attr_of(key: Seq<char>, raw: Seq<char>) -> AttrView {
    AttrView { key, raw, value: Some(raw) }
}

pub open spec fn tag_of(name: Seq<char>, attrs: Seq<AttrView>) -> TagView {
    TagView { name, attrs }
}

pub open spec fn start_of(name: Seq<char>) -> EventView {
    EventView::Start(tag_of(name, Seq::empty()))
}

pub open spec fn empty_of(name: Seq<char>) -> EventView {
    EventView::Empty(tag_of(name, Seq::empty()))
}

/// The name of the reference that stands for a character.
pub open spec fn reference_of(c: char) -> Seq<char> {
    if c == '&' {
        "amp"@
    } else if c == '<' {
        "lt"@
    } else if c == '>' {
        "gt"@
    } else {
        "quot"@
    }
}

pub open spec fn needs_reference(c: char) -> bool {
    c == '&' || c == '<' || c == '>' || c == '"'
}

/// The first `n` characters of a line as texts and references.
pub open spec fn line_events(l: Seq<char>, n: nat) -> Seq<EventView>
    decreases n,
{
    if n == 0 || n > l.len() {
        Seq::empty()
    } else {
        let before = line_events(l, (n - 1) as nat);
        let c = l[n - 1];
        if needs_reference(c) {
            before.push(EventView::Reference(None, reference_of(c)))
        } else {
            match ending_text(before) {
                Some(t) => before.update(before.len() - 1, EventView::Text(Some(t.push(c)))),
                None => before.push(EventView::Text(Some(seq![c]))),
            }
        }
    }
}

/// The text that events end in.
pub open spec fn ending_text(evs: Seq<EventView>) -> Option<Seq<char>> {
    if evs.len() > 0 {
        match evs.last() {
            EventView::Text(t) => t,
            _ => None,
        }
    } else {
        None
    }
}

/// What comes before the text of a paragraph.
pub open spec fn para_head() -> Seq<EventView> {
    seq![
        start_of("a:p"@),
        start_of("a:r"@),
        EventView::Empty(tag_of("a:rPr"@, seq![attr_of("lang"@, "en-US"@)])),
        start_of("a:t"@),
    ]
}

/// What comes behind the text of a paragraph.
pub open spec fn para_tail() -> Seq<EventView> {
    seq![EventView::End("a:t"@), EventView::End("a:r"@), EventView::End("a:p"@)]
}

/// The first `n` lines as paragraphs.
pub open spec fn notes_paras(ls: Seq<Seq<char>>, n: nat) -> Seq<EventView>
    decreases n,
{
    if n == 0 || n > ls.len() {
        Seq::empty()
    } else {
        notes_paras(ls, (n - 1) as nat) + para_head() + line_events(
            ls[n - 1],
            ls[n - 1].len(),
        ) + para_tail()
    }
}

/// What comes before the paragraphs of a notes part.
pub open spec fn notes_head() -> Seq<EventView> {
    seq![
        EventView::Text(Some("\n"@)),
        EventView::Start(
            tag_of(
                "p:notes"@,
                seq![
                    attr_of(
                        "xmlns:a"@,
                        "http://schemas.openxmlformats.org/drawingml/2006/main"@,
                    ),
                    attr_of(
                        "xmlns:r"@,
                        "http://schemas.openxmlformats.org/officeDocument/2006/relationships"@,
                    ),
                    attr_of(
                        "xmlns:p"@,
                        "http://schemas.openxmlformats.org/presentationml/2006/main"@,
                    ),
                ],
            ),
        ),
        start_of("p:cSld"@),
        start_of("p:spTree"@),
        start_of("p:nvGrpSpPr"@),
        EventView::Empty(tag_of("p:cNvPr"@, seq![attr_of("id"@, "1"@), attr_of("name"@, ""@)])),
        empty_of("p:cNvGrpSpPr"@),
        empty_of("p:nvPr"@),
        EventView::End("p:nvGrpSpPr"@),
        empty_of("p:grpSpPr"@),
        start_of("p:sp"@),
        start_of("p:nvSpPr"@),
        EventView::Empty(
            tag_of(
                "p:cNvPr"@,
                seq![attr_of("id"@, "2"@), attr_of("name"@, "Notes Placeholder"@)],
            ),
        ),
        start_of("p:cNvSpPr"@),
        EventView::Empty(tag_of("a:spLocks"@, seq![attr_of("noGrp"@, "1"@)])),
        EventView::End("p:cNvSpPr"@),
        start_of("p:nvPr"@),
        EventView::Empty(
            tag_of("p:ph"@, seq![attr_of("type"@, "body"@), attr_of("idx"@, "1"@)]),
        ),
        EventView::End("p:nvPr"@),
        EventView::End("p:nvSpPr"@),
        empty_of("p:spPr"@),
        start_of("p:txBody"@),
        empty_of("a:bodyPr"@),
        empty_of("a:lstStyle"@),
    ]
}

/// What comes behind the paragraphs of a notes part.
pub open spec fn notes_tail() -> Seq<EventView> {
    seq![
        EventView::End("p:txBody"@),
        EventView::End("p:sp"@),
        EventView::End("p:spTree"@),
        EventView::End("p:cSld"@),
        EventView::End("p:notes"@),
        EventView::Text(Some("\n"@)),
    ]
}

/// A notes part that says these lines, as events.
pub open spec fn notes_events(ls: Seq<Seq<char>>) -> Seq<EventView> {
    notes_head() + notes_paras(ls, ls.len()) + notes_tail()
}

/// A notes part that says these lines.
pub open spec fn notes_xml(ls: Seq<Seq<char>>) -> Seq<char> {
    document_xml(notes_events(ls))
}

// ── writing ─────────────────────────────────────────────────────────────────

fn push_attr(attrs: &mut Vec<Attr>, key: &str, raw: &str)
    ensures
        final(attrs).deep_view() == old(attrs).deep_view().push(attr_of(key@, raw@)),
{
    push_deep(
        attrs,
        Attr { key: copy_text(key), raw: copy_text(raw), value: Some(copy_text(raw)) },
    );
}

fn no_attrs() -> (r: Vec<Attr>)
    ensures
        r.deep_view() == Seq::<AttrView>::empty(),
{
    let v: Vec<Attr> = Vec::new();
    assert(v.deep_view() =~= Seq::<AttrView>::empty());
    v
}

fn one_attr(key: &str, raw: &str) -> (r: Vec<Attr>)
    ensures
        r.deep_view() == seq![attr_of(key@, raw@)],
{
    let mut v = no_attrs();
    push_attr(&mut v, key, raw);
    assert(v.deep_view() =~= seq![attr_of(key@, raw@)]);
    v
}

fn two_attrs(key: &str, raw: &str, key2: &str, raw2: &str) -> (r: Vec<Attr>)
    ensures
        r.deep_view() == seq![attr_of(key@, raw@), attr_of(key2@, raw2@)],
{
    let mut v = one_attr(key, raw);
    push_attr(&mut v, key2, raw2);
    assert(v.deep_view() =~= seq![attr_of(key@, raw@), attr_of(key2@, raw2@)]);
    v
}

fn push_start(evs: &mut Vec<XmlEvent>, name: &str, attrs: Vec<Attr>)
    ensures
        final(evs).deep_view() == old(evs).deep_view().push(
            EventView::Start(tag_of(name@, attrs.deep_view())),
        ),
{
    push_deep(evs, XmlEvent::Start(Tag { name: copy_text(name), attrs }));
}

fn push_empty(evs: &mut Vec<XmlEvent>, name: &str, attrs: Vec<Attr>)
    ensures
        final(evs).deep_view() == old(evs).deep_view().push(
            EventView::Empty(tag_of(name@, attrs.deep_view())),
        ),
{
    push_deep(evs, XmlEvent::Empty(Tag { name: copy_text(name), attrs }));
}

fn push_end(evs: &mut Vec<XmlEvent>, name: &str)
    ensures
        final(evs).deep_view() == old(evs).deep_view().push(EventView::End(name@)),
{
    push_deep(evs, XmlEvent::End(copy_text(name)));
}

fn push_text(evs: &mut Vec<XmlEvent>, t: &str)
    ensures
        final(evs).deep_view() == old(evs).deep_view().push(EventView::Text(Some(t@))),
{
    push_deep(evs, XmlEvent::Text(Some(copy_text(t))));
}

fn make_notes_head() -> (r: Vec<XmlEvent>)
    ensures
        r.deep_view() == notes_head(),
{
    let mut v: Vec<XmlEvent> = Vec::new();
    assert(v.deep_view() =~= Seq::<EventView>::empty());
    push_text(&mut v, "\n");
    let mut names = two_attrs(
        "xmlns:a",
        "http://schemas.openxmlformats.org/drawingml/2006/main",
        "xmlns:r",
        "http://schemas.openxmlformats.org/officeDocument/2006/relationships",
    );
    push_attr(
        &mut names,
        "xmlns:p",
        "http://schemas.openxmlformats.org/presentationml/2006/main",
    );
    assert(names.deep_view() =~= seq![
        attr_of("xmlns:a"@, "http://schemas.openxmlformats.org/drawingml/2006/main"@),
        attr_of("xmlns:r"@, "http://schemas.openxmlformats.org/officeDocument/2006/relationships"@),
        attr_of("xmlns:p"@, "http://schemas.openxmlformats.org/presentationml/2006/main"@),
    ]);
    push_start(&mut v, "p:notes", names);
    push_start(&mut v, "p:cSld", no_attrs());
    push_start(&mut v, "p:spTree", no_attrs());
    push_start(&mut v, "p:nvGrpSpPr", no_attrs());
    push_empty(&mut v, "p:cNvPr", two_attrs("id", "1", "name", ""));
    push_empty(&mut v, "p:cNvGrpSpPr", no_attrs());
    push_empty(&mut v, "p:nvPr", no_attrs());
    push_end(&mut v, "p:nvGrpSpPr");
    push_empty(&mut v, "p:grpSpPr", no_attrs());
    push_start(&mut v, "p:sp", no_attrs());
    push_start(&mut v, "p:nvSpPr", no_attrs());
    push_empty(&mut v, "p:cNvPr", two_attrs("id", "2", "name", "Notes Placeholder"));
    push_start(&mut v, "p:cNvSpPr", no_attrs());
    push_empty(&mut v, "a:spLocks", one_attr("noGrp", "1"));
    push_end(&mut v, "p:cNvSpPr");
    push_start(&mut v, "p:nvPr", no_attrs());
    push_empty(&mut v, "p:ph", two_attrs("type", "body", "idx", "1"));
    push_end(&mut v, "p:nvPr");
    push_end(&mut v, "p:nvSpPr");
    push_empty(&mut v, "p:spPr", no_attrs());
    push_start(&mut v, "p:txBody", no_attrs());
    push_empty(&mut v, "a:bodyPr", no_attrs());
    push_empty(&mut v, "a:lstStyle", no_attrs());
    assert(v.deep_view() =~= notes_head());
    v
}

fn push_reference(evs: &mut Vec<XmlEvent>, c: char)
    requires
        needs_reference(c),
    ensures
        final(evs).deep_view() == old(evs).deep_view().push(
            EventView::Reference(None, reference_of(c)),
        ),
{
    let name = if c == '&' {
        "amp"
    } else if c == '<' {
        "lt"
    } else if c == '>' {
        "gt"
    } else {
        "quot"
    };
    push_deep(evs, XmlEvent::Reference(None, copy_text(name)));
}

fn has_chars(s: &str) -> (r: bool)
    ensures
        r == (s@.len() > 0),
{
    chars_of(s).len() > 0
}

fn push_line(evs: &mut Vec<XmlEvent>, l: &str)
    ensures
        final(evs).deep_view() == old(evs).deep_view() + line_events(l@, l@.len()),
{
    let cs = chars_of(l);
    let ghost before = evs.deep_view();
    let mut text = String::new();
    let mut i: usize = 0;
    let ghost mut done = Seq::<EventView>::empty();
    assert(evs.deep_view() =~= before + done);
    while i < cs.len()
        invariant
            i <= cs@.len(),
            cs@ == l@,
            evs.deep_view() == before + done,
            ending_text(done) is None,
            line_events(l@, i as nat) == if text@.len() > 0 {
                done.push(EventView::Text(Some(text@)))
            } else {
                done
            },
        decreases cs@.len() - i,
    {
        let c = cs[i];
        let ghost was = line_events(l@, i as nat);
        if c == '&' || c == '<' || c == '>' || c == '"' {
            if has_chars(text.as_str()) {
                push_text(evs, text.as_str());
                proof {
                    done = done.push(EventView::Text(Some(text@)));
                }
                assert(evs.deep_view() =~= before + done);
                text = String::new();
            }
            push_reference(evs, c);
            proof {
                done = done.push(EventView::Reference(None, reference_of(c)));
            }
            assert(evs.deep_view() =~= before + done);
        } else {
            let ghost old_text = text@;
            text.push(c);
            proof {
                if old_text.len() > 0 {
                    assert(was.last() == EventView::Text(Some(old_text)));
                    assert(was.update(
                        was.len() - 1,
                        EventView::Text(Some(old_text.push(c))),
                    ) =~= done.push(EventView::Text(Some(text@))));
                } else {
                    assert(seq![c] =~= text@);
                }
            }
        }
        i = i + 1;
    }
    if has_chars(text.as_str()) {
        push_text(evs, text.as_str());
    }
    assert(evs.deep_view() =~= before + line_events(l@, l@.len()));
}

pub fn make_notes_xml(ls: &Vec<String>) -> (r: String)
    ensures
        r@ == notes_xml(ls.deep_view()),
{
    let ghost lv = ls.deep_view();
    let mut v = make_notes_head();
    let mut i: usize = 0;
    assert(v.deep_view() =~= notes_head() + notes_paras(lv, 0));
    while i < ls.len()
        invariant
            i <= ls@.len(),
            lv == ls.deep_view(),
            v.deep_view() == notes_head() + notes_paras(lv, i as nat),
        decreases ls@.len() - i,
    {
        assert(lv[i as int] == ls@[i as int]@);
        let ghost was = v.deep_view();
        push_start(&mut v, "a:p", no_attrs());
        push_start(&mut v, "a:r", no_attrs());
        push_empty(&mut v, "a:rPr", one_attr("lang", "en-US"));
        push_start(&mut v, "a:t", no_attrs());
        assert(v.deep_view() =~= was + para_head());
        push_line(&mut v, ls[i].as_str());
        let ghost middle = v.deep_view();
        push_end(&mut v, "a:t");
        push_end(&mut v, "a:r");
        push_end(&mut v, "a:p");
        assert(v.deep_view() =~= middle + para_tail());
        i = i + 1;
        assert(v.deep_view() =~= notes_head() + notes_paras(lv, i as nat));
    }
    let ghost was = v.deep_view();
    push_end(&mut v, "p:txBody");
    push_end(&mut v, "p:sp");
    push_end(&mut v, "p:spTree");
    push_end(&mut v, "p:cSld");
    push_end(&mut v, "p:notes");
    push_text(&mut v, "\n");
    assert(v.deep_view() =~= was + notes_tail());
    write_document(&v)
}

// ── reading back ────────────────────────────────────────────────────────────

/// Whether a line can be written so that it is read as it stands: a carriage return is read
/// as a line feed.
pub open spec fn is_plain_line(l: Seq<char>) -> bool {
    !l.contains('\r')
}

pub open spec fn are_plain_lines(ls: Seq<Seq<char>>) -> bool {
    forall|i: int| 0 <= i < ls.len() ==> is_plain_line(#[trigger] ls[i])
}

/// Whether events are plain, and no text follows another.
spec fn is_plain_run(evs: Seq<EventView>) -> bool {
    &&& forall|i: int| 0 <= i < evs.len() ==> is_plain_event(#[trigger] evs[i])
    &&& forall|i: int|
        0 <= i < evs.len() - 1 && #[trigger] evs[i] is Text ==> !(evs[i + 1] is Text)
}

spec fn is_inline(ev: EventView) -> bool {
    ev is Text || ev is Reference
}

/// The characters of events, one behind the other.
spec fn all_text(evs: Seq<EventView>) -> Seq<char>
    decreases evs.len(),
{
    if evs.len() == 0 {
        Seq::empty()
    } else {
        all_text(evs.drop_last()) + event_text(evs.last())
    }
}

proof fn lemma_plain_concat(a: Seq<EventView>, b: Seq<EventView>)
    requires
        is_plain_run(a),
        is_plain_run(b),
        a.len() > 0 && b.len() > 0 ==> !(a.last() is Text) || !(b[0] is Text),
    ensures
        is_plain_run(a + b),
{
    let all = a + b;
    assert forall|i: int| 0 <= i < all.len() implies is_plain_event(#[trigger] all[i]) by {
        if i < a.len() {
            assert(all[i] == a[i]);
        } else {
            assert(all[i] == b[i - a.len()]);
        }
    }
    assert forall|i: int| 0 <= i < all.len() - 1 && #[trigger] all[i] is Text implies !(all[i
        + 1] is Text) by {
        if i + 1 < a.len() {
            assert(all[i] == a[i]);
            assert(all[i + 1] == a[i + 1]);
        } else if i < a.len() {
            assert(all[i] == a.last());
            assert(all[i + 1] == b[0]);
        } else {
            assert(all[i] == b[i - a.len()]);
            assert(all[i + 1] == b[i - a.len() + 1]);
        }
    }
}

proof fn lemma_references(c: char)
    requires
        needs_reference(c),
    ensures
        is_plain_event(EventView::Reference(None, reference_of(c))),
        event_text(EventView::Reference(None, reference_of(c))) == seq![c],
{
    reveal_strlit("amp");
    reveal_strlit("lt");
    reveal_strlit("gt");
    reveal_strlit("quot");
    assert("amp"@.len() == 3 && "lt"@.len() == 2 && "gt"@.len() == 2 && "quot"@.len() == 4);
    assert("lt"@[0] == 'l' && "gt"@[0] == 'g');
}

/// The events of a line are plain, and say the line.
proof fn lemma_line(l: Seq<char>, n: nat)
    requires
        is_plain_line(l),
        n <= l.len(),
    ensures
        is_plain_run(line_events(l, n)),
        forall|i: int|
            0 <= i < line_events(l, n).len() ==> is_inline(#[trigger] line_events(l, n)[i]),
        all_text(line_events(l, n)) == l.take(n as int),
    decreases n,
{
    let evs = line_events(l, n);
    if n == 0 {
        assert(l.take(0) =~= Seq::<char>::empty());
    } else {
        let before = line_events(l, (n - 1) as nat);
        let c = l[n - 1];
        lemma_line(l, (n - 1) as nat);
        assert(l.take(n as int) =~= l.take(n - 1).push(c));
        assert(l.contains(c));
        if needs_reference(c) {
            lemma_references(c);
            assert(evs.drop_last() =~= before);
        } else {
            match ending_text(before) {
                Some(t) => {
                    assert(evs.drop_last() =~= before.drop_last());
                    assert(before[before.len() - 1] == EventView::Text(Some(t)));
                    assert(evs.last() == EventView::Text(Some(t.push(c))));
                    assert(all_text(evs) =~= l.take(n as int));
                    assert(is_plain_event(before[before.len() - 1]));
                    assert(is_plain_event(evs.last()));
                    assert forall|i: int| 0 <= i < evs.len() - 1 && #[trigger] evs[i] is Text implies
                        !(evs[i + 1] is Text) by {
                        assert(before[i] is Text);
                    }
                },
                None => {
                    assert(evs.drop_last() =~= before);
                    assert(all_text(evs) =~= l.take(n as int));
                    if before.len() > 0 {
                        let last = before[before.len() - 1];
                        assert(is_plain_event(last));
                        assert(!(last is Text));
                    }
                },
            }
        }
    }
}

proof fn lemma_open_prefix(a: Seq<EventView>, b: Seq<EventView>, n: nat)
    requires
        n <= a.len(),
    ensures
        open_tags(a + b, n) == open_tags(a, n),
    decreases n,
{
    if n > 0 {
        lemma_open_prefix(a, b, (n - 1) as nat);
        assert((a + b)[n - 1] == a[n - 1]);
    }
}

pub proof fn lemma_open_start(a: Seq<EventView>, t: TagView, open: Seq<Seq<char>>)
    requires
        open_tags(a, a.len()) == Some(open),
    ensures
        open_tags(a.push(EventView::Start(t)), a.len() + 1) == Some(open.push(t.name)),
{
    let ev = EventView::Start(t);
    lemma_open_prefix(a, seq![ev], a.len());
    assert(a + seq![ev] =~= a.push(ev));
}

pub proof fn lemma_open_end(a: Seq<EventView>, name: Seq<char>, open: Seq<Seq<char>>)
    requires
        open_tags(a, a.len()) == Some(open.push(name)),
    ensures
        open_tags(a.push(EventView::End(name)), a.len() + 1) == Some(open),
{
    let ev = EventView::End(name);
    lemma_open_prefix(a, seq![ev], a.len());
    assert(a + seq![ev] =~= a.push(ev));
    assert(open.push(name).drop_last() =~= open);
}

pub proof fn lemma_open_beside(a: Seq<EventView>, ev: EventView)
    requires
        !(ev is Start),
        !(ev is End),
    ensures
        open_tags(a.push(ev), a.len() + 1) == open_tags(a, a.len()),
{
    lemma_open_prefix(a, seq![ev], a.len());
    assert(a + seq![ev] =~= a.push(ev));
}

proof fn lemma_open_inline(a: Seq<EventView>, b: Seq<EventView>)
    requires
        forall|i: int| 0 <= i < b.len() ==> is_inline(#[trigger] b[i]),
    ensures
        open_tags(a + b, a.len() + b.len()) == open_tags(a, a.len()),
    decreases b.len(),
{
    if b.len() > 0 {
        let front = b.drop_last();
        assert forall|i: int| 0 <= i < front.len() implies is_inline(#[trigger] front[i]) by {
            assert(front[i] == b[i]);
        }
        lemma_open_inline(a, front);
        assert(is_inline(b[b.len() - 1]));
        lemma_open_beside(a + front, b.last());
        assert((a + front).push(b.last()) =~= a + b);
    } else {
        assert(a + b =~= a);
    }
}

proof fn lemma_run_prefix(a: Seq<EventView>, b: Seq<EventView>, n: nat)
    requires
        n <= a.len(),
    ensures
        paras_run(a + b, drawing_tags(), n) == paras_run(a, drawing_tags(), n),
    decreases n,
{
    if n > 0 {
        lemma_run_prefix(a, b, (n - 1) as nat);
        assert((a + b)[n - 1] == a[n - 1]);
    }
}

proof fn lemma_run_push(a: Seq<EventView>, ev: EventView)
    ensures
        paras_run(a.push(ev), drawing_tags(), a.len() + 1) == paras_step(
            paras_run(a, drawing_tags(), a.len()),
            ev,
            drawing_tags(),
        ),
{
    lemma_run_prefix(a, seq![ev], a.len());
    assert(a + seq![ev] =~= a.push(ev));
}

/// Whether an event neither opens nor closes a paragraph.
spec fn is_quiet(ev: EventView) -> bool {
    match ev {
        EventView::Start(t) => !drawing_tags().contains(t.name),
        EventView::End(n) => !drawing_tags().contains(n),
        _ => true,
    }
}

proof fn lemma_run_quiet(a: Seq<EventView>, b: Seq<EventView>)
    requires
        forall|i: int| 0 <= i < b.len() ==> is_quiet(#[trigger] b[i]),
        paras_run(a, drawing_tags(), a.len()).depth == 0,
    ensures
        paras_run(a + b, drawing_tags(), a.len() + b.len()) == paras_run(
            a,
            drawing_tags(),
            a.len(),
        ),
    decreases b.len(),
{
    if b.len() > 0 {
        let front = b.drop_last();
        assert forall|i: int| 0 <= i < front.len() implies is_quiet(#[trigger] front[i]) by {
            assert(front[i] == b[i]);
        }
        lemma_run_quiet(a, front);
        assert(is_quiet(b[b.len() - 1]));
        lemma_run_push(a + front, b.last());
        assert((a + front).push(b.last()) =~= a + b);
    } else {
        assert(a + b =~= a);
    }
}

proof fn lemma_run_inline(a: Seq<EventView>, b: Seq<EventView>)
    requires
        forall|i: int| 0 <= i < b.len() ==> is_inline(#[trigger] b[i]),
        paras_run(a, drawing_tags(), a.len()).depth == 1,
    ensures
        paras_run(a + b, drawing_tags(), a.len() + b.len()) == (ParasView {
            cur: paras_run(a, drawing_tags(), a.len()).cur + all_text(b),
            ..paras_run(a, drawing_tags(), a.len())
        }),
    decreases b.len(),
{
    let st = paras_run(a, drawing_tags(), a.len());
    if b.len() > 0 {
        let front = b.drop_last();
        assert forall|i: int| 0 <= i < front.len() implies is_inline(#[trigger] front[i]) by {
            assert(front[i] == b[i]);
        }
        lemma_run_inline(a, front);
        assert(is_inline(b[b.len() - 1]));
        lemma_run_push(a + front, b.last());
        assert((a + front).push(b.last()) =~= a + b);
        assert(st.cur + all_text(front) + event_text(b.last()) =~= st.cur + all_text(b));
    } else {
        assert(a + b =~= a);
        assert(st.cur + all_text(b) =~= st.cur);
    }
}

proof fn lemma_para_names()
    ensures
        is_plain_name("a:p"@),
        is_plain_name("a:r"@),
        is_plain_name("a:rPr"@),
        is_plain_name("a:t"@),
        is_plain_attr(attr_of("lang"@, "en-US"@)),
        drawing_tags().contains("a:p"@),
        !drawing_tags().contains("a:r"@),
        !drawing_tags().contains("a:t"@),
{
    reveal_strlit("a:p");
    reveal_strlit("a:r");
    reveal_strlit("a:rPr");
    reveal_strlit("a:t");
    reveal_strlit("lang");
    reveal_strlit("en-US");
    assert(drawing_tags()[0] == "a:p"@);
    assert("a:p"@[2] == 'p' && "a:r"@[2] == 'r' && "a:t"@[2] == 't');
}

/// A paragraph is plain, and closes what it opens.
proof fn lemma_para(a: Seq<EventView>, l: Seq<char>, open: Seq<Seq<char>>)
    requires
        is_plain_line(l),
        open_tags(a, a.len()) == Some(open),
    ensures
        is_plain_run(para_head() + line_events(l, l.len()) + para_tail()),
        open_tags(
            a + para_head() + line_events(l, l.len()) + para_tail(),
            (a + para_head() + line_events(l, l.len()) + para_tail()).len(),
        ) == Some(open),
{
    lemma_para_names();
    let line = line_events(l, l.len());
    lemma_line(l, l.len());
    let p = tag_of("a:p"@, Seq::empty());
    let r = tag_of("a:r"@, Seq::empty());
    let t = tag_of("a:t"@, Seq::empty());
    let props = tag_of("a:rPr"@, seq![attr_of("lang"@, "en-US"@)]);
    assert(is_plain_tag(props));
    assert(is_plain_run(para_head()));
    assert(is_plain_run(para_tail()));
    lemma_plain_concat(para_head(), line);
    lemma_plain_concat(para_head() + line, para_tail());
    let a1 = a.push(EventView::Start(p));
    let a2 = a1.push(EventView::Start(r));
    let a3 = a2.push(EventView::Empty(props));
    let a4 = a3.push(EventView::Start(t));
    assert(a4 =~= a + para_head());
    let o1 = open.push("a:p"@);
    let o2 = o1.push("a:r"@);
    lemma_open_start(a, p, open);
    lemma_open_start(a1, r, o1);
    lemma_open_beside(a2, EventView::Empty(props));
    lemma_open_start(a3, t, o2);
    lemma_open_inline(a4, line);
    let b1 = a4 + line;
    let b2 = b1.push(EventView::End("a:t"@));
    let b3 = b2.push(EventView::End("a:r"@));
    let b4 = b3.push(EventView::End("a:p"@));
    assert(b4 =~= a + para_head() + line + para_tail());
    lemma_open_end(b1, "a:t"@, o2);
    lemma_open_end(b2, "a:r"@, o1);
    lemma_open_end(b3, "a:p"@, open);
}

/// A paragraph behind others adds its line to what is read.
proof fn lemma_para_run(a: Seq<EventView>, l: Seq<char>)
    requires
        is_plain_line(l),
        paras_run(a, drawing_tags(), a.len()).depth == 0,
        paras_run(a, drawing_tags(), a.len()).cur.len() == 0,
    ensures
        ({
            let b = a + para_head() + line_events(l, l.len()) + para_tail();
            paras_run(b, drawing_tags(), b.len()) == (ParasView {
                out: paras_run(a, drawing_tags(), a.len()).out.push(l),
                depth: 0,
                cur: Seq::empty(),
            })
        }),
{
    lemma_para_names();
    let line = line_events(l, l.len());
    lemma_line(l, l.len());
    assert(l.take(l.len() as int) =~= l);
    let p = EventView::Start(tag_of("a:p"@, Seq::empty()));
    let r = EventView::Start(tag_of("a:r"@, Seq::empty()));
    let t = EventView::Start(tag_of("a:t"@, Seq::empty()));
    let props = EventView::Empty(tag_of("a:rPr"@, seq![attr_of("lang"@, "en-US"@)]));
    let a1 = a.push(p);
    let a2 = a1.push(r);
    let a3 = a2.push(props);
    let a4 = a3.push(t);
    assert(a4 =~= a + para_head());
    let b1 = a4 + line;
    let b2 = b1.push(EventView::End("a:t"@));
    let b3 = b2.push(EventView::End("a:r"@));
    let b4 = b3.push(EventView::End("a:p"@));
    assert(b4 =~= a + para_head() + line + para_tail());
    let st = paras_run(a, drawing_tags(), a.len());
    assert(st.cur =~= Seq::<char>::empty());
    lemma_run_push(a, p);
    lemma_run_push(a1, r);
    lemma_run_push(a2, props);
    assert(st.cur + event_text(props) =~= st.cur);
    lemma_run_push(a3, t);
    lemma_run_inline(a4, line);
    assert(st.cur + all_text(line) =~= l);
    lemma_run_push(b1, EventView::End("a:t"@));
    lemma_run_push(b2, EventView::End("a:r"@));
    lemma_run_push(b3, EventView::End("a:p"@));
}

proof fn lemma_head_names()
    ensures
        is_plain_name("p:notes"@) && "p:notes"@ != "a:p"@,
        is_plain_name("p:cSld"@) && "p:cSld"@ != "a:p"@,
        is_plain_name("p:spTree"@) && "p:spTree"@ != "a:p"@,
        is_plain_name("p:nvGrpSpPr"@) && "p:nvGrpSpPr"@ != "a:p"@,
        is_plain_name("p:cNvPr"@) && "p:cNvPr"@ != "a:p"@,
        is_plain_name("p:cNvGrpSpPr"@) && "p:cNvGrpSpPr"@ != "a:p"@,
        is_plain_name("p:nvPr"@) && "p:nvPr"@ != "a:p"@,
        is_plain_name("p:grpSpPr"@) && "p:grpSpPr"@ != "a:p"@,
        is_plain_name("p:sp"@) && "p:sp"@ != "a:p"@,
        is_plain_name("p:nvSpPr"@) && "p:nvSpPr"@ != "a:p"@,
        is_plain_name("p:cNvSpPr"@) && "p:cNvSpPr"@ != "a:p"@,
        is_plain_name("a:spLocks"@) && "a:spLocks"@ != "a:p"@,
        is_plain_name("p:ph"@) && "p:ph"@ != "a:p"@,
        is_plain_name("p:spPr"@) && "p:spPr"@ != "a:p"@,
        is_plain_name("p:txBody"@) && "p:txBody"@ != "a:p"@,
        is_plain_name("a:bodyPr"@) && "a:bodyPr"@ != "a:p"@,
        is_plain_name("a:lstStyle"@) && "a:lstStyle"@ != "a:p"@,
{
    reveal_strlit("a:p");
    reveal_strlit("p:notes");
    reveal_strlit("p:cSld");
    reveal_strlit("p:spTree");
    reveal_strlit("p:nvGrpSpPr");
    reveal_strlit("p:cNvPr");
    reveal_strlit("p:cNvGrpSpPr");
    reveal_strlit("p:nvPr");
    reveal_strlit("p:grpSpPr");
    reveal_strlit("p:sp");
    reveal_strlit("p:nvSpPr");
    reveal_strlit("p:cNvSpPr");
    reveal_strlit("a:spLocks");
    reveal_strlit("p:ph");
    reveal_strlit("p:spPr");
    reveal_strlit("p:txBody");
    reveal_strlit("a:bodyPr");
    reveal_strlit("a:lstStyle");
    assert("p:notes"@.len() != 3);
    assert("p:cSld"@.len() != 3);
    assert("p:spTree"@.len() != 3);
    assert("p:nvGrpSpPr"@.len() != 3);
    assert("p:cNvPr"@.len() != 3);
    assert("p:cNvGrpSpPr"@.len() != 3);
    assert("p:nvPr"@.len() != 3);
    assert("p:grpSpPr"@.len() != 3);
    assert("p:sp"@.len() != 3);
    assert("p:nvSpPr"@.len() != 3);
    assert("p:cNvSpPr"@.len() != 3);
    assert("a:spLocks"@.len() != 3);
    assert("p:ph"@.len() != 3);
    assert("p:spPr"@.len() != 3);
    assert("p:txBody"@.len() != 3);
    assert("a:bodyPr"@.len() != 3);
    assert("a:lstStyle"@.len() != 3);
}

proof fn lemma_head_attrs()
    ensures
        is_plain_attr(attr_of("xmlns:a"@, "http://schemas.openxmlformats.org/drawingml/2006/main"@)),
        is_plain_attr(attr_of("xmlns:r"@, "http://schemas.openxmlformats.org/officeDocument/2006/relationships"@)),
        is_plain_attr(attr_of("xmlns:p"@, "http://schemas.openxmlformats.org/presentationml/2006/main"@)),
        is_plain_attr(attr_of("id"@, "1"@)),
        is_plain_attr(attr_of("id"@, "2"@)),
        is_plain_attr(attr_of("name"@, ""@)),
        is_plain_attr(attr_of("name"@, "Notes Placeholder"@)),
        is_plain_attr(attr_of("noGrp"@, "1"@)),
        is_plain_attr(attr_of("type"@, "body"@)),
        is_plain_attr(attr_of("idx"@, "1"@)),
        "xmlns:a"@ != "xmlns:r"@ && "xmlns:a"@ != "xmlns:p"@ && "xmlns:r"@ != "xmlns:p"@,
        "id"@ != "name"@,
        "type"@ != "idx"@,
        is_plain_event(EventView::Text(Some("\n"@))),
{
    reveal_strlit("\n");
    reveal_strlit("xmlns:a");
    reveal_strlit("http://schemas.openxmlformats.org/drawingml/2006/main");
    reveal_strlit("xmlns:r");
    reveal_strlit("http://schemas.openxmlformats.org/officeDocument/2006/relationships");
    reveal_strlit("xmlns:p");
    reveal_strlit("http://schemas.openxmlformats.org/presentationml/2006/main");
    reveal_strlit("id");
    reveal_strlit("1");
    reveal_strlit("2");
    reveal_strlit("name");
    reveal_strlit("");
    reveal_strlit("Notes Placeholder");
    reveal_strlit("noGrp");
    reveal_strlit("type");
    reveal_strlit("body");
    reveal_strlit("idx");
    assert("xmlns:a"@[6] == 'a' && "xmlns:r"@[6] == 'r' && "xmlns:p"@[6] == 'p');
    assert("id"@.len() == 2 && "name"@.len() == 4 && "type"@.len() == 4 && "idx"@.len() == 3);
}

/// What stands before the paragraphs is plain, says nothing, and leaves the text body open.
proof fn lemma_head()
    ensures
        is_plain_run(notes_head()),
        forall|i: int| 0 <= i < notes_head().len() ==> is_quiet(#[trigger] notes_head()[i]),
{
    lemma_head_names();
    lemma_head_attrs();
    let h = notes_head();
    assert forall|i: int| 0 <= i < h.len() implies is_plain_event(#[trigger] h[i]) && is_quiet(
        h[i],
    ) by {
        assert(is_plain_event(h[i]));
    }
}

/// What is open where the paragraphs begin.
spec fn body_open() -> Seq<Seq<char>> {
    seq!["p:notes"@, "p:cSld"@, "p:spTree"@, "p:sp"@, "p:txBody"@]
}

proof fn lemma_head_open()
    ensures
        open_tags(notes_head(), notes_head().len()) == Some(body_open()),
{
    let h = notes_head();
    assert(h.take(1) =~= h.take(0).push(h[0]));
    lemma_open_beside(h.take(0), h[0]);
    assert(h.take(2) =~= h.take(1).push(h[1]));
    lemma_open_start(h.take(1), h[1]->Start_0, Seq::empty());
    assert(Seq::<Seq<char>>::empty().push("p:notes"@) =~= seq!["p:notes"@]);
    assert(h.take(3) =~= h.take(2).push(h[2]));
    lemma_open_start(h.take(2), h[2]->Start_0, seq!["p:notes"@]);
    assert(seq!["p:notes"@].push("p:cSld"@) =~= seq!["p:notes"@, "p:cSld"@]);
    assert(h.take(4) =~= h.take(3).push(h[3]));
    lemma_open_start(h.take(3), h[3]->Start_0, seq!["p:notes"@, "p:cSld"@]);
    assert(seq!["p:notes"@, "p:cSld"@].push("p:spTree"@) =~= seq!["p:notes"@, "p:cSld"@, "p:spTree"@]);
    assert(h.take(5) =~= h.take(4).push(h[4]));
    lemma_open_start(h.take(4), h[4]->Start_0, seq!["p:notes"@, "p:cSld"@, "p:spTree"@]);
    assert(seq!["p:notes"@, "p:cSld"@, "p:spTree"@].push("p:nvGrpSpPr"@) =~= seq!["p:notes"@, "p:cSld"@, "p:spTree"@, "p:nvGrpSpPr"@]);
    assert(h.take(6) =~= h.take(5).push(h[5]));
    lemma_open_beside(h.take(5), h[5]);
    assert(h.take(7) =~= h.take(6).push(h[6]));
    lemma_open_beside(h.take(6), h[6]);
    assert(h.take(8) =~= h.take(7).push(h[7]));
    lemma_open_beside(h.take(7), h[7]);
    assert(h.take(9) =~= h.take(8).push(h[8]));
    assert(seq!["p:notes"@, "p:cSld"@, "p:spTree"@].push("p:nvGrpSpPr"@) =~= seq!["p:notes"@, "p:cSld"@, "p:spTree"@, "p:nvGrpSpPr"@]);
    lemma_open_end(h.take(8), "p:nvGrpSpPr"@, seq!["p:notes"@, "p:cSld"@, "p:spTree"@]);
    assert(h.take(10) =~= h.take(9).push(h[9]));
    lemma_open_beside(h.take(9), h[9]);
    assert(h.take(11) =~= h.take(10).push(h[10]));
    lemma_open_start(h.take(10), h[10]->Start_0, seq!["p:notes"@, "p:cSld"@, "p:spTree"@]);
    assert(seq!["p:notes"@, "p:cSld"@, "p:spTree"@].push("p:sp"@) =~= seq!["p:notes"@, "p:cSld"@, "p:spTree"@, "p:sp"@]);
    assert(h.take(12) =~= h.take(11).push(h[11]));
    lemma_open_start(h.take(11), h[11]->Start_0, seq!["p:notes"@, "p:cSld"@, "p:spTree"@, "p:sp"@]);
    assert(seq!["p:notes"@, "p:cSld"@, "p:spTree"@, "p:sp"@].push("p:nvSpPr"@) =~= seq!["p:notes"@, "p:cSld"@, "p:spTree"@, "p:sp"@, "p:nvSpPr"@]);
    assert(h.take(13) =~= h.take(12).push(h[12]));
    lemma_open_beside(h.take(12), h[12]);
    assert(h.take(14) =~= h.take(13).push(h[13]));
    lemma_open_start(h.take(13), h[13]->Start_0, seq!["p:notes"@, "p:cSld"@, "p:spTree"@, "p:sp"@, "p:nvSpPr"@]);
    assert(seq!["p:notes"@, "p:cSld"@, "p:spTree"@, "p:sp"@, "p:nvSpPr"@].push("p:cNvSpPr"@) =~= seq!["p:notes"@, "p:cSld"@, "p:spTree"@, "p:sp"@, "p:nvSpPr"@, "p:cNvSpPr"@]);
    assert(h.take(15) =~= h.take(14).push(h[14]));
    lemma_open_beside(h.take(14), h[14]);
    assert(h.take(16) =~= h.take(15).push(h[15]));
    assert(seq!["p:notes"@, "p:cSld"@, "p:spTree"@, "p:sp"@, "p:nvSpPr"@].push("p:cNvSpPr"@) =~= seq!["p:notes"@, "p:cSld"@, "p:spTree"@, "p:sp"@, "p:nvSpPr"@, "p:cNvSpPr"@]);
    lemma_open_end(h.take(15), "p:cNvSpPr"@, seq!["p:notes"@, "p:cSld"@, "p:spTree"@, "p:sp"@, "p:nvSpPr"@]);
    assert(h.take(17) =~= h.take(16).push(h[16]));
    lemma_open_start(h.take(16), h[16]->Start_0, seq!["p:notes"@, "p:cSld"@, "p:spTree"@, "p:sp"@, "p:nvSpPr"@]);
    assert(seq!["p:notes"@, "p:cSld"@, "p:spTree"@, "p:sp"@, "p:nvSpPr"@].push("p:nvPr"@) =~= seq!["p:notes"@, "p:cSld"@, "p:spTree"@, "p:sp"@, "p:nvSpPr"@, "p:nvPr"@]);
    assert(h.take(18) =~= h.take(17).push(h[17]));
    lemma_open_beside(h.take(17), h[17]);
    assert(h.take(19) =~= h.take(18).push(h[18]));
    assert(seq!["p:notes"@, "p:cSld"@, "p:spTree"@, "p:sp"@, "p:nvSpPr"@].push("p:nvPr"@) =~= seq!["p:notes"@, "p:cSld"@, "p:spTree"@, "p:sp"@, "p:nvSpPr"@, "p:nvPr"@]);
    lemma_open_end(h.take(18), "p:nvPr"@, seq!["p:notes"@, "p:cSld"@, "p:spTree"@, "p:sp"@, "p:nvSpPr"@]);
    assert(h.take(20) =~= h.take(19).push(h[19]));
    assert(seq!["p:notes"@, "p:cSld"@, "p:spTree"@, "p:sp"@].push("p:nvSpPr"@) =~= seq!["p:notes"@, "p:cSld"@, "p:spTree"@, "p:sp"@, "p:nvSpPr"@]);
    lemma_open_end(h.take(19), "p:nvSpPr"@, seq!["p:notes"@, "p:cSld"@, "p:spTree"@, "p:sp"@]);
    assert(h.take(21) =~= h.take(20).push(h[20]));
    lemma_open_beside(h.take(20), h[20]);
    assert(h.take(22) =~= h.take(21).push(h[21]));
    lemma_open_start(h.take(21), h[21]->Start_0, seq!["p:notes"@, "p:cSld"@, "p:spTree"@, "p:sp"@]);
    assert(seq!["p:notes"@, "p:cSld"@, "p:spTree"@, "p:sp"@].push("p:txBody"@) =~= seq!["p:notes"@, "p:cSld"@, "p:spTree"@, "p:sp"@, "p:txBody"@]);
    assert(h.take(23) =~= h.take(22).push(h[22]));
    lemma_open_beside(h.take(22), h[22]);
    assert(h.take(24) =~= h.take(23).push(h[23]));
    lemma_open_beside(h.take(23), h[23]);
    assert(h.take(24) =~= h);
}

/// What stands behind the paragraphs is plain, says nothing, and closes what is open.
proof fn lemma_tail(a: Seq<EventView>)
    requires
        open_tags(a, a.len()) == Some(body_open()),
    ensures
        is_plain_run(notes_tail()),
        forall|i: int| 0 <= i < notes_tail().len() ==> is_quiet(#[trigger] notes_tail()[i]),
        open_tags(a + notes_tail(), a.len() + 6) == Some(Seq::<Seq<char>>::empty()),
{
    lemma_head_names();
    lemma_head_attrs();
    assert(seq!["p:notes"@, "p:cSld"@, "p:spTree"@, "p:sp"@].push("p:txBody"@) =~= seq!["p:notes"@, "p:cSld"@, "p:spTree"@, "p:sp"@, "p:txBody"@]);
    lemma_open_end(a, "p:txBody"@, seq!["p:notes"@, "p:cSld"@, "p:spTree"@, "p:sp"@]);
    let a1 = a.push(EventView::End("p:txBody"@));
    assert(seq!["p:notes"@, "p:cSld"@, "p:spTree"@].push("p:sp"@) =~= seq!["p:notes"@, "p:cSld"@, "p:spTree"@, "p:sp"@]);
    lemma_open_end(a1, "p:sp"@, seq!["p:notes"@, "p:cSld"@, "p:spTree"@]);
    let a2 = a1.push(EventView::End("p:sp"@));
    assert(seq!["p:notes"@, "p:cSld"@].push("p:spTree"@) =~= seq!["p:notes"@, "p:cSld"@, "p:spTree"@]);
    lemma_open_end(a2, "p:spTree"@, seq!["p:notes"@, "p:cSld"@]);
    let a3 = a2.push(EventView::End("p:spTree"@));
    assert(seq!["p:notes"@].push("p:cSld"@) =~= seq!["p:notes"@, "p:cSld"@]);
    lemma_open_end(a3, "p:cSld"@, seq!["p:notes"@]);
    let a4 = a3.push(EventView::End("p:cSld"@));
    assert(Seq::<Seq<char>>::empty().push("p:notes"@) =~= seq!["p:notes"@]);
    lemma_open_end(a4, "p:notes"@, Seq::<Seq<char>>::empty());
    let a5 = a4.push(EventView::End("p:notes"@));
    lemma_open_beside(a5, EventView::Text(Some("\n"@)));
    assert(a5.push(EventView::Text(Some("\n"@))) =~= a + notes_tail());
}

/// The first `n` paragraphs, behind the declaration and what stands before them.
proof fn lemma_paras(ls: Seq<Seq<char>>, n: nat)
    requires
        are_plain_lines(ls),
        n <= ls.len(),
    ensures
        ({
            let a = notes_head() + notes_paras(ls, n);
            &&& is_plain_run(a)
            &&& !(a.last() is Text)
            &&& open_tags(a, a.len()) == Some(body_open())
        }),
        ({
            let a = seq![EventView::Other] + notes_head() + notes_paras(ls, n);
            paras_run(a, drawing_tags(), a.len()) == (ParasView {
                out: ls.take(n as int),
                depth: 0,
                cur: Seq::empty(),
            })
        }),
    decreases n,
{
    let d = seq![EventView::Other];
    if n == 0 {
        lemma_head();
        lemma_head_open();
        assert(notes_head() + notes_paras(ls, 0) =~= notes_head());
        assert(d + notes_head() + notes_paras(ls, 0) =~= d + notes_head());
        assert(d =~= Seq::<EventView>::empty().push(EventView::Other));
        lemma_run_push(Seq::empty(), EventView::Other);
        lemma_run_quiet(d, notes_head());
        assert(ls.take(0) =~= Seq::<Seq<char>>::empty());
    } else {
        let m = (n - 1) as nat;
        lemma_paras(ls, m);
        let l = ls[n - 1];
        let para = para_head() + line_events(l, l.len()) + para_tail();
        let a = notes_head() + notes_paras(ls, m);
        lemma_para(a, l, body_open());
        lemma_plain_concat(a, para);
        assert(a + para =~= notes_head() + notes_paras(ls, n));
        assert(a + para =~= a + para_head() + line_events(l, l.len()) + para_tail());
        assert((a + para).last() == para_tail()[2]);
        let b = d + notes_head() + notes_paras(ls, m);
        lemma_para_run(b, l);
        assert(b + para_head() + line_events(l, l.len()) + para_tail() =~= d + notes_head()
            + notes_paras(ls, n));
        assert(ls.take(n as int) =~= ls.take(m as int).push(l));
    }
}

/// The events of a notes part make a plain document, whose paragraphs are the lines.
proof fn lemma_notes(ls: Seq<Seq<char>>)
    requires
        are_plain_lines(ls),
    ensures
        is_plain_document(notes_events(ls)),
        paragraphs(seq![EventView::Other] + notes_events(ls), drawing_tags()) == ls,
{
    lemma_paras(ls, ls.len());
    let a = notes_head() + notes_paras(ls, ls.len());
    lemma_tail(a);
    lemma_plain_concat(a, notes_tail());
    assert(a + notes_tail() =~= notes_events(ls));
    let b = seq![EventView::Other] + notes_head() + notes_paras(ls, ls.len());
    lemma_run_quiet(b, notes_tail());
    assert(b + notes_tail() =~= seq![EventView::Other] + notes_events(ls));
    assert(ls.take(ls.len() as int) =~= ls);
}

/// The paragraphs of a notes part are the lines that it was written for, also where these
/// hold markup characters.
pub proof fn written_notes_say_their_lines(ls: Seq<Seq<char>>)
    requires
        are_plain_lines(ls),
        reads_back(encode_utf8(notes_xml(ls)), true),
    ensures
        paragraphs(xml_items(encode_utf8(notes_xml(ls)), true), drawing_tags()) == ls,
{
    lemma_notes(ls);
    assert(xml_items(encode_utf8(document_xml(notes_events(ls))), true) == seq![
        EventView::Other,
    ] + notes_events(ls));
}

} // verus!
