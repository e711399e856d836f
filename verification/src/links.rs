//! How one more relationship is read from a relationship part.

use crate::container::bytes_of_text;
use crate::notes::{attr_of, lemma_open_beside, lemma_open_end, lemma_open_start, tag_of};
use crate::paths::{named_parts, resolved_parts, resolved_path, walk};
use crate::pptx::{new_rels, put_before, rel_element};
use crate::text::{
    chars_of, decimal, find_from, find_text, is_digit, join, lemma_decimal_digits, next_char,
    slice_text, split, split_from,
};
use crate::xml::{
    around_tag, attr_pos, attrs_xml, document_xml, ends_with, event_xml, events_xml, go_on_with,
    is_plain_attr, is_plain_document, is_plain_event, is_plain_tag, is_relationship,
    is_relationship_to, is_whole, is_written_as, opened, raw_attr, read_xml, reads_back,
    relationship_target, xml_items, AttrView, EventView, TagView,
};
use vstd::prelude::*;
use vstd::utf8::encode_utf8;

verus! {

// ── the element ─────────────────────────────────────────────────────────────

/// A relationship as a tag.
pub open spec fn rel_tag(rid: u32, kind: Seq<char>, target: Seq<char>) -> TagView {
    tag_of(
        "Relationship"@,
        seq![
            attr_of("Id"@, "rId"@ + decimal(rid as nat)),
            attr_of(
                "Type"@,
                "http://schemas.openxmlformats.org/officeDocument/2006/relationships/"@ + kind,
            ),
            attr_of("Target"@, target),
        ],
    )
}

/// Whether a text can stand between double quotes.
spec fn is_quotable(s: Seq<char>) -> bool {
    forall|i: int|
        0 <= i < s.len() ==> #[trigger] s[i] != '"' && s[i] != '<' && s[i] != '>' && s[i] != '&'
            && s[i] != '\t' && s[i] != '\n' && s[i] != '\r'
}

proof fn lemma_quotable_concat(a: Seq<char>, b: Seq<char>)
    requires
        is_quotable(a),
        is_quotable(b),
    ensures
        is_quotable(a + b),
{
    let s = a + b;
    assert forall|i: int| 0 <= i < s.len() implies #[trigger] s[i] != '"' && s[i] != '<' && s[i]
        != '>' && s[i] != '&' && s[i] != '\t' && s[i] != '\n' && s[i] != '\r' by {
        if i < a.len() {
            assert(s[i] == a[i]);
        } else {
            assert(s[i] == b[i - a.len()]);
        }
    }
}

proof fn lemma_quotable_decimal(n: nat)
    ensures
        is_quotable(decimal(n)),
{
    lemma_decimal_digits(n);
    let s = decimal(n);
    assert forall|i: int| 0 <= i < s.len() implies #[trigger] s[i] != '"' && s[i] != '<' && s[i]
        != '>' && s[i] != '&' && s[i] != '\t' && s[i] != '\n' && s[i] != '\r' by {
        assert(is_digit(s[i]));
    }
}

/// The way from a slide to a notes part.
pub open spec fn notes_way(idx: u32) -> Seq<char> {
    "../notesSlides/notesSlide"@ + decimal(idx as nat) + ".xml"@
}

/// The relationship to a notes part.
pub open spec fn notes_tag(rid: u32, idx: u32) -> TagView {
    rel_tag(rid, "notesSlide"@, notes_way(idx))
}

proof fn lemma_notes_tag_plain(rid: u32, idx: u32)
    ensures
        is_plain_tag(notes_tag(rid, idx)),
{
    let t = notes_tag(rid, idx);
    reveal_strlit("Relationship");
    reveal_strlit("Id");
    reveal_strlit("Type");
    reveal_strlit("Target");
    reveal_strlit("rId");
    reveal_strlit("http://schemas.openxmlformats.org/officeDocument/2006/relationships/");
    reveal_strlit("notesSlide");
    reveal_strlit("../notesSlides/notesSlide");
    reveal_strlit(".xml");
    lemma_quotable_decimal(rid as nat);
    lemma_quotable_decimal(idx as nat);
    lemma_quotable_concat("rId"@, decimal(rid as nat));
    lemma_quotable_concat(
        "http://schemas.openxmlformats.org/officeDocument/2006/relationships/"@,
        "notesSlide"@,
    );
    lemma_quotable_concat("../notesSlides/notesSlide"@, decimal(idx as nat));
    lemma_quotable_concat("../notesSlides/notesSlide"@ + decimal(idx as nat), ".xml"@);
    assert("Id"@.len() == 2 && "Type"@.len() == 4 && "Target"@.len() == 6);
    assert(is_plain_attr(t.attrs[0]));
    assert(is_plain_attr(t.attrs[1]));
    assert(is_plain_attr(t.attrs[2]));
}

/// The tag is written as the element.
proof fn lemma_rel_written(rid: u32, kind: Seq<char>, target: Seq<char>)
    ensures
        event_xml(EventView::Empty(rel_tag(rid, kind, target))) == rel_element(rid, kind, target),
{
    let t = rel_tag(rid, kind, target);
    let a = t.attrs;
    let id = "rId"@ + decimal(rid as nat);
    let ty = "http://schemas.openxmlformats.org/officeDocument/2006/relationships/"@ + kind;
    assert(attrs_xml(a, 0) == Seq::<char>::empty());
    assert(attrs_xml(a, 1) == attrs_xml(a, 0) + " "@ + "Id"@ + "=\""@ + id + "\""@);
    assert(attrs_xml(a, 2) == attrs_xml(a, 1) + " "@ + "Type"@ + "=\""@ + ty + "\""@);
    assert(attrs_xml(a, 3) == attrs_xml(a, 2) + " "@ + "Target"@ + "=\""@ + target + "\""@);
    reveal_strlit("<");
    reveal_strlit("/>");
    reveal_strlit(" ");
    reveal_strlit("=\"");
    reveal_strlit("\"");
    reveal_strlit("Relationship");
    reveal_strlit("Id");
    reveal_strlit("Type");
    reveal_strlit("Target");
    reveal_strlit("rId");
    reveal_strlit("http://schemas.openxmlformats.org/officeDocument/2006/relationships/");
    reveal_strlit("<Relationship Id=\"rId");
    reveal_strlit("\" Type=\"http://schemas.openxmlformats.org/officeDocument/2006/relationships/");
    reveal_strlit("\" Target=\"");
    reveal_strlit("\"/>");
    let l1 = "<"@ + "Relationship"@ + " "@ + "Id"@ + "=\""@ + "rId"@;
    let l2 = "\""@ + " "@ + "Type"@ + "=\""@
        + "http://schemas.openxmlformats.org/officeDocument/2006/relationships/"@;
    let l3 = "\""@ + " "@ + "Target"@ + "=\""@;
    let l4 = "\""@ + "/>"@;
    assert("<Relationship Id=\"rId"@ =~= l1);
    assert("\" Type=\"http://schemas.openxmlformats.org/officeDocument/2006/relationships/"@ =~= l2);
    assert("\" Target=\""@ =~= l3);
    assert("\"/>"@ =~= l4);
    let d = decimal(rid as nat);
    let one = "<"@ + "Relationship"@ + attrs_xml(a, 1);
    assert(one =~= l1 + d + "\""@);
    let two = one + " "@ + "Type"@ + "=\""@ + ty + "\""@;
    assert("<"@ + "Relationship"@ + attrs_xml(a, 2) =~= two);
    assert(two =~= l1 + d + l2 + kind + "\""@);
    let three = two + " "@ + "Target"@ + "=\""@ + target + "\""@;
    assert("<"@ + "Relationship"@ + attrs_xml(a, 3) =~= three);
    assert(three =~= l1 + d + l2 + kind + l3 + target + "\""@);
    assert(three + "/>"@ =~= l1 + d + l2 + kind + l3 + target + l4);
}

// ── written events ──────────────────────────────────────────────────────────

spec fn all_xml(evs: Seq<EventView>) -> Seq<char> {
    events_xml(evs, evs.len())
}

proof fn lemma_written_prefix(a: Seq<EventView>, b: Seq<EventView>, n: nat)
    requires
        n <= a.len(),
    ensures
        events_xml(a + b, n) == events_xml(a, n),
    decreases n,
{
    if n > 0 {
        lemma_written_prefix(a, b, (n - 1) as nat);
        assert((a + b)[n - 1] == a[n - 1]);
    }
}

proof fn lemma_written_push(a: Seq<EventView>, ev: EventView)
    ensures
        all_xml(a.push(ev)) == all_xml(a) + event_xml(ev),
{
    lemma_written_prefix(a, seq![ev], a.len());
    assert(a + seq![ev] =~= a.push(ev));
}

// ── where a relationship leads ──────────────────────────────────────────────

spec fn declaration() -> Seq<char> {
    "<?xml version=\"1.0\" encoding=\"UTF-8\" standalone=\"yes\"?>"@
}

proof fn lemma_target_skips(evs: Seq<EventView>, i: int, j: int)
    requires
        0 <= i <= j <= evs.len(),
        forall|q: int| i <= q < j ==> !is_relationship(#[trigger] evs[q], "notesSlide"@),
    ensures
        relationship_target(evs, "notesSlide"@, i) == relationship_target(evs, "notesSlide"@, j),
    decreases j - i,
{
    if i < j {
        assert(!is_relationship(evs[i], "notesSlide"@));
        lemma_target_skips(evs, i + 1, j);
    }
}

proof fn lemma_notes_tag_links(rid: u32, idx: u32)
    ensures
        is_relationship(EventView::Empty(notes_tag(rid, idx)), "notesSlide"@),
        raw_attr(notes_tag(rid, idx), "Target"@) == Some(notes_way(idx)),
{
    let t = notes_tag(rid, idx);
    let a = t.attrs;
    reveal_strlit("Id");
    reveal_strlit("Type");
    reveal_strlit("Target");
    assert("Id"@.len() == 2 && "Type"@.len() == 4 && "Target"@.len() == 6);
    assert(attr_pos(a, "Type"@, 1) == 1);
    assert(attr_pos(a, "Type"@, 0) == 1);
    assert(attr_pos(a, "Target"@, 2) == 2);
    assert(attr_pos(a, "Target"@, 1) == 2);
    assert(attr_pos(a, "Target"@, 0) == 2);
    let url = "http://schemas.openxmlformats.org/officeDocument/2006/relationships/"@;
    let ty = url + "notesSlide"@;
    assert(ty.subrange(ty.len() - "notesSlide"@.len(), ty.len() as int) =~= "notesSlide"@);
    assert(ends_with(ty, "notesSlide"@));
}

/// Whether the relationships in a text can take one more to notes: what stands before their
/// end tag is read without a fault by itself, and has none yet.
pub open spec fn takes_link(s: Seq<char>) -> bool {
    match find_from(s, "</Relationships>"@, 0) {
        Some(p) => {
            let pre = encode_utf8(s.subrange(0, p));
            &&& is_whole(pre, true)
            &&& forall|j: int|
                0 <= j < xml_items(pre, true).len() ==> !is_relationship(
                    #[trigger] xml_items(pre, true)[j],
                    "notesSlide"@,
                )
        },
        None => false,
    }
}

/// Whether the relationships in a text can take one more to notes.
pub fn can_take_link(s: &str) -> (r: bool)
    ensures
        r == takes_link(s@),
{
    let cs = chars_of(s);
    let mark = chars_of("</Relationships>");
    match find_text(&cs, &mark, 0) {
        Some(p) => {
            let pre = bytes_of_text(slice_text(&cs, 0, p).as_str());
            let (evs, whole) = read_xml(pre.as_slice(), true);
            let ghost items = xml_items(pre@, true);
            assert(evs.deep_view() == items);
            let mut i: usize = 0;
            while i < evs.len()
                invariant
                    i <= evs@.len(),
                    evs.deep_view() == items,
                    items == xml_items(pre@, true),
                    pre@ == encode_utf8(s@.subrange(0, p as int)),
                    find_from(s@, "</Relationships>"@, 0) == Some(p as int),
                    forall|j: int|
                        0 <= j < i ==> !is_relationship(#[trigger] items[j], "notesSlide"@),
                decreases evs@.len() - i,
            {
                assert(items[i as int] == evs@[i as int].deep_view());
                if is_relationship_to(&evs[i], "notesSlide") {
                    return false;
                }
                i = i + 1;
            }
            whole
        },
        None => false,
    }
}

proof fn lemma_encoded_concat(a: Seq<char>, b: Seq<char>)
    ensures
        encode_utf8(a + b) == encode_utf8(a) + encode_utf8(b),
    decreases a.len(),
{
    if a.len() == 0 {
        assert(a + b =~= b);
        assert(encode_utf8(a) + encode_utf8(b) =~= encode_utf8(b));
    } else {
        lemma_encoded_concat(a.drop_first(), b);
        assert((a + b).drop_first() =~= a.drop_first() + b);
        assert((a + b)[0] == a[0]);
        assert(encode_utf8(a + b) =~= encode_utf8(a) + encode_utf8(b));
    }
}

proof fn lemma_same_place(a: Seq<AttrView>, b: Seq<AttrView>, key: Seq<char>, i: int)
    requires
        a.len() == b.len(),
        forall|k: int| 0 <= k < a.len() ==> (#[trigger] a[k]).key == b[k].key,
        0 <= i <= a.len(),
    ensures
        attr_pos(a, key, i) == attr_pos(b, key, i),
        i <= attr_pos(a, key, i) <= a.len(),
    decreases a.len() - i,
{
    if i < a.len() {
        assert(a[i].key == b[i].key);
        if a[i].key != key {
            lemma_same_place(a, b, key, i + 1);
        }
    }
}

/// Tags that are written alike have the same attributes as written.
proof fn lemma_written_alike(t: TagView, w: TagView, key: Seq<char>)
    requires
        is_written_as(t, w),
    ensures
        raw_attr(t, key) == raw_attr(w, key),
{
    lemma_same_place(t.attrs, w.attrs, key, 0);
    let p = attr_pos(t.attrs, key, 0);
    if p < t.attrs.len() {
        assert(t.attrs[p].raw == w.attrs[p].raw);
    }
}

/// A text whose relationships take one more leads to the notes once it has it.
pub proof fn lemma_added_link(s: Seq<char>, rid: u32, idx: u32)
    requires
        takes_link(s),
        reads_back(
            encode_utf8(
                put_before(
                    s,
                    "</Relationships>"@,
                    rel_element(rid, "notesSlide"@, notes_way(idx)),
                ),
            ),
            true,
        ),
    ensures
        relationship_target(
            xml_items(
                encode_utf8(
                    put_before(
                        s,
                        "</Relationships>"@,
                        rel_element(rid, "notesSlide"@, notes_way(idx)),
                    ),
                ),
                true,
            ),
            "notesSlide"@,
            0,
        ) == Some(notes_way(idx)),
{
    let t = notes_tag(rid, idx);
    let rel = rel_element(rid, "notesSlide"@, notes_way(idx));
    let p = find_from(s, "</Relationships>"@, 0)->0;
    let front = s.subrange(0, p);
    let back = s.subrange(p, s.len() as int);
    let xml = encode_utf8(front + rel + back);
    lemma_rel_written(rid, "notesSlide"@, notes_way(idx));
    lemma_notes_tag_plain(rid, idx);
    lemma_notes_tag_links(rid, idx);
    lemma_encoded_concat(front + rel, back);
    lemma_encoded_concat(front, rel);
    let pre = encode_utf8(front);
    let post = encode_utf8(back);
    assert(xml == around_tag(pre, t, post));
    let all = xml_items(xml, true);
    let before = xml_items(pre, true);
    assert(go_on_with(all, before, t));
    let n = before.len() as int;
    assert forall|q: int| 0 <= q < n implies !is_relationship(#[trigger] all[q], "notesSlide"@) by {
        assert(all.take(n)[q] == all[q]);
        assert(!is_relationship(before[q], "notesSlide"@));
    }
    lemma_target_skips(all, 0, n);
    let e = all[n]->Empty_0;
    lemma_written_alike(e, t, "Type"@);
    lemma_written_alike(e, t, "Target"@);
    assert(opened(all[n]) == Some(e));
    assert(is_relationship(all[n], "notesSlide"@));
}

/// New relationships with the one to notes: a plain document that leads to the notes.
pub proof fn lemma_new_link(rid: u32, idx: u32) -> (all: Seq<EventView>)
    ensures
        new_rels(rel_element(rid, "notesSlide"@, notes_way(idx))) == document_xml(all),
        is_plain_document(all),
        relationship_target(seq![EventView::Other] + all, "notesSlide"@, 0) == Some(
            notes_way(idx),
        ),
{
    let t = notes_tag(rid, idx);
    let rel = rel_element(rid, "notesSlide"@, notes_way(idx));
    let xmlns = attr_of("xmlns"@, "http://schemas.openxmlformats.org/package/2006/relationships"@);
    let root = tag_of("Relationships"@, seq![xmlns]);
    let line = EventView::Text(Some("\n"@));
    let end = EventView::End("Relationships"@);
    let all = seq![line, EventView::Start(root), EventView::Empty(t), end, line];
    lemma_rel_written(rid, "notesSlide"@, notes_way(idx));
    lemma_notes_tag_plain(rid, idx);
    lemma_notes_tag_links(rid, idx);
    reveal_strlit("xmlns");
    reveal_strlit("http://schemas.openxmlformats.org/package/2006/relationships");
    reveal_strlit("Relationships");
    reveal_strlit("\n");
    assert(is_plain_attr(xmlns));
    assert(is_plain_tag(root));
    assert(is_plain_event(line));

    let e0 = Seq::<EventView>::empty();
    let e1 = e0.push(line);
    let e2 = e1.push(EventView::Start(root));
    let e3 = e2.push(EventView::Empty(t));
    let e4 = e3.push(end);
    let e5 = e4.push(line);
    assert(e5 =~= all);
    let none = Seq::<Seq<char>>::empty();
    lemma_open_beside(e0, line);
    lemma_open_start(e1, root, none);
    lemma_open_beside(e2, EventView::Empty(t));
    lemma_open_end(e3, "Relationships"@, none);
    lemma_open_beside(e4, line);

    lemma_written_push(e0, line);
    lemma_written_push(e1, EventView::Start(root));
    lemma_written_push(e2, EventView::Empty(t));
    lemma_written_push(e3, end);
    lemma_written_push(e4, line);
    lemma_root_written();
    let head = declaration() + "\n"@ + event_xml(EventView::Start(root));
    assert(document_xml(all) =~= head + rel + ("</"@ + "Relationships"@ + ">"@) + "\n"@);
    assert(new_rels(rel) =~= head + rel + ("</"@ + "Relationships"@ + ">"@) + "\n"@);

    reveal_strlit("Relationship");
    assert("Relationship"@.len() == 12 && "Relationships"@.len() == 13);
    let read = seq![EventView::Other] + all;
    assert(read =~= seq![
        EventView::Other,
        line,
        EventView::Start(root),
        EventView::Empty(t),
        end,
        line,
    ]);
    assert forall|q: int| 0 <= q < 3 implies !is_relationship(
        #[trigger] read[q],
        "notesSlide"@,
    ) by {
        assert(opened(read[2]) == Some(root));
    }
    lemma_target_skips(read, 0, 3);
    all
}

/// The texts around the one element of new relationships, as events.
proof fn lemma_root_written()
    ensures
        "<?xml version=\"1.0\" encoding=\"UTF-8\" standalone=\"yes\"?>\n<Relationships xmlns=\"http://schemas.openxmlformats.org/package/2006/relationships\">"@
            == declaration() + "\n"@ + event_xml(
            EventView::Start(
                tag_of(
                    "Relationships"@,
                    seq![
                        attr_of(
                            "xmlns"@,
                            "http://schemas.openxmlformats.org/package/2006/relationships"@,
                        ),
                    ],
                ),
            ),
        ),
        "</Relationships>\n"@ == "</"@ + "Relationships"@ + ">"@ + "\n"@,
{
    let url = "http://schemas.openxmlformats.org/package/2006/relationships"@;
    let a = seq![attr_of("xmlns"@, url)];
    assert(attrs_xml(a, 0) == Seq::<char>::empty());
    assert(attrs_xml(a, 1) == attrs_xml(a, 0) + " "@ + "xmlns"@ + "=\""@ + url + "\""@);
    reveal_strlit(
        "<?xml version=\"1.0\" encoding=\"UTF-8\" standalone=\"yes\"?>\n<Relationships xmlns=\"http://schemas.openxmlformats.org/package/2006/relationships\">",
    );
    reveal_strlit("<?xml version=\"1.0\" encoding=\"UTF-8\" standalone=\"yes\"?>");
    reveal_strlit("http://schemas.openxmlformats.org/package/2006/relationships");
    reveal_strlit("</Relationships>\n");
    reveal_strlit("Relationships");
    reveal_strlit("xmlns");
    reveal_strlit("\n");
    reveal_strlit("<");
    reveal_strlit("</");
    reveal_strlit(">");
    reveal_strlit(" ");
    reveal_strlit("=\"");
    reveal_strlit("\"");
    assert("</Relationships>\n"@ =~= "</"@ + "Relationships"@ + ">"@ + "\n"@);
    let x = "<"@ + "Relationships"@ + attrs_xml(a, 1) + ">"@;
    assert("<?xml version=\"1.0\" encoding=\"UTF-8\" standalone=\"yes\"?>\n<Relationships xmlns=\"http://schemas.openxmlformats.org/package/2006/relationships\">"@
        =~= declaration() + "\n"@ + x);
}

// ── the way to the notes ────────────────────────────────────────────────────

proof fn lemma_piece_ends(s: Seq<char>, i: int, e: int)
    requires
        0 <= i <= e <= s.len(),
        forall|q: int| i <= q < e ==> #[trigger] s[q] != '/',
        e < s.len() ==> s[e] == '/',
    ensures
        next_char(s, '/', i) == e,
    decreases e - i,
{
    if i < e {
        lemma_piece_ends(s, i + 1, e);
    }
}

/// The way to a notes part leads from the slides to its name.
pub proof fn lemma_way_leads(idx: u32)
    ensures
        resolved_path("ppt/slides"@, notes_way(idx)) == "ppt/notesSlides/notesSlide"@ + decimal(
            idx as nat,
        ) + ".xml"@,
{
    let base = "ppt/slides"@;
    let d = decimal(idx as nat);
    let way = notes_way(idx);
    let file = "notesSlide"@ + d + ".xml"@;
    lemma_decimal_digits(idx as nat);
    reveal_strlit("ppt/slides");
    reveal_strlit("ppt");
    reveal_strlit("slides");
    reveal_strlit("notesSlides");
    reveal_strlit("notesSlide");
    reveal_strlit("..");
    reveal_strlit(".");
    reveal_strlit("/");
    reveal_strlit(".xml");
    reveal_strlit("../notesSlides/notesSlide");
    reveal_strlit("ppt/notesSlides/notesSlide");
    lemma_piece_ends(base, 0, 3);
    lemma_piece_ends(base, 4, 10);
    assert(base.subrange(0, 3) =~= "ppt"@);
    assert(base.subrange(4, 10) =~= "slides"@);
    let b = seq!["ppt"@, "slides"@];
    assert(split_from(base, '/', 4) == seq!["slides"@]);
    assert(split(base, '/') =~= b);
    assert(named_parts(b, 0) == Seq::<Seq<char>>::empty());
    assert(named_parts(b, 1) =~= seq!["ppt"@]);
    assert(named_parts(b, 2) =~= b);

    let total = way.len() as int;
    assert(total == 29 + d.len());
    assert forall|q: int| 15 <= q < total implies #[trigger] way[q] != '/' by {
        if q < 25 {
            assert(way[q] == "../notesSlides/notesSlide"@[q]);
        } else if q < 25 + d.len() {
            assert(way[q] == d[q - 25]);
            assert(is_digit(d[q - 25]));
        } else {
            assert(way[q] == ".xml"@[q - 25 - d.len()]);
        }
    }
    lemma_piece_ends(way, 0, 2);
    lemma_piece_ends(way, 3, 14);
    lemma_piece_ends(way, 15, total);
    assert(way.subrange(0, 2) =~= ".."@);
    assert(way.subrange(3, 14) =~= "notesSlides"@);
    assert(way.subrange(15, total) =~= file);
    let w = seq![".."@, "notesSlides"@, file];
    assert(split_from(way, '/', 15) == seq![file]);
    assert(split_from(way, '/', 3) =~= seq!["notesSlides"@, file]);
    assert(split(way, '/') =~= w);

    assert(walk(b, w, 0) == b);
    assert(walk(b, w, 1) =~= seq!["ppt"@]);
    assert("notesSlides"@.len() == 11 && file.len() > 10);
    assert(walk(b, w, 2) =~= seq!["ppt"@, "notesSlides"@]);
    let parts = seq!["ppt"@, "notesSlides"@, file];
    assert(walk(b, w, 3) =~= parts);
    assert(resolved_parts(base, way) == parts);
    assert(parts.drop_last() =~= seq!["ppt"@, "notesSlides"@]);
    assert(parts.drop_last().drop_last() =~= seq!["ppt"@]);
    assert(join(seq!["ppt"@], "/"@) == "ppt"@);
    assert(join(seq!["ppt"@, "notesSlides"@], "/"@) == "ppt"@ + "/"@ + "notesSlides"@);
    assert(join(parts, "/"@) == "ppt"@ + "/"@ + "notesSlides"@ + "/"@ + file);
    assert("ppt"@ + "/"@ + "notesSlides"@ + "/"@ + file =~= "ppt/notesSlides/notesSlide"@ + d
        + ".xml"@);
}

} // verus!
