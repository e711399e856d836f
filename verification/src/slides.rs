//! Presentations: what their slides say, and slides built from text.

use crate::container::{
    bytes_of_text, item_names, lossy_text, read_zip_entry, text_of_bytes, zip_entry,
    zip_entry_names, zip_items,
};
use crate::deep::push_deep;
use crate::paths::{after_last, resolve_zip_path, resolved_path};
use crate::sorting::{
    before, in_order, is_stable_sort, is_weak_order, lemma_stable_sort_exists, order_of,
    stable_order,
};
use crate::text::{
    chars_of, concat2, concat3, copy_text, find_from, find_text, matches_at, parse_nat,
    parse_u64_at, same, slice_text, stands_at,
};
use crate::xml::{
    ends_with, event_text, events_say_their_text, extract_paragraphs, opt_text, paragraphs,
    push_event_text, reads_back, relationship_target, rels_relationship_target, said, said_by,
    starts_with, text_ends_with, text_starts_with, xml_events, xml_items, EventView, TagView,
    XmlEvent,
};
use vstd::prelude::*;
use vstd::utf8::encode_utf8;

verus! {

/// The lines of a slide and of its notes.
pub type SlideText = (Vec<String>, Vec<String>);

/// What a [`SlideText`] stands for.
pub type SlideView = (Seq<Seq<char>>, Seq<Seq<char>>);

pub open spec fn res_slides(r: Result<Vec<SlideText>, String>) -> Result<
    Seq<SlideView>,
    Seq<char>,
> {
    match r {
        Ok(v) => Ok(v.deep_view()),
        Err(e) => Err(e@),
    }
}

// ── slide numbers ───────────────────────────────────────────────────────────

/// The first position at or after `i` from which `p` no longer repeats.
pub open spec fn past_prefixes(s: Seq<char>, p: Seq<char>, i: int) -> int
    decreases s.len() - i,
{
    if 0 <= i && p.len() > 0 && matches_at(s, p, i) {
        past_prefixes(s, p, i + p.len())
    } else {
        i
    }
}

/// The last position at or before `j` up to which `p` no longer repeats.
pub open spec fn before_suffixes(s: Seq<char>, p: Seq<char>, i: int, j: int) -> int
    decreases j,
{
    if p.len() > 0 && i <= j - p.len() && j <= s.len() && matches_at(s, p, j - p.len()) {
        before_suffixes(s, p, i, j - p.len())
    } else {
        j
    }
}

/// The number of a slide part: what stands between `ppt/slides/slide` and `.xml`;
/// 0 where that is no 32-bit number.
pub open spec fn slide_number(name: Seq<char>) -> nat {
    let a = past_prefixes(name, "ppt/slides/slide"@, 0);
    let b = before_suffixes(name, ".xml"@, a, name.len() as int);
    match parse_nat(name.subrange(a, b), u32::MAX as nat) {
        Some(v) => v,
        None => 0,
    }
}

proof fn lemma_parse_smaller(s: Seq<char>)
    ensures
        match parse_nat(s, u64::MAX as nat) {
            Some(v) => parse_nat(s, u32::MAX as nat) == (if v <= u32::MAX {
                Some(v)
            } else {
                None
            }),
            None => parse_nat(s, u32::MAX as nat) is None,
        },
{
}

pub fn slide_index(name: &str) -> (r: u32)
    ensures
        r == slide_number(name@),
{
    let cs = chars_of(name);
    let head = chars_of("ppt/slides/slide");
    let tail = chars_of(".xml");
    proof {
        reveal_strlit("ppt/slides/slide");
        reveal_strlit(".xml");
    }
    let total: usize = cs.len();
    let mut a: usize = 0;
    while stands_at(&cs, &head, a)
        invariant
            a <= cs@.len(),
            total == cs@.len(),
            cs@ == name@,
            head@ == "ppt/slides/slide"@,
            head@.len() > 0,
            past_prefixes(name@, head@, 0) == past_prefixes(name@, head@, a as int),
        decreases cs@.len() - a,
    {
        assert(a + head@.len() <= total);
        a = a + head.len();
    }
    let mut b: usize = cs.len();
    while b >= tail.len() && a <= b - tail.len() && stands_at(&cs, &tail, b - tail.len())
        invariant
            a <= b <= cs@.len(),
            cs@ == name@,
            tail@ == ".xml"@,
            tail@.len() > 0,
            before_suffixes(name@, tail@, a as int, cs@.len() as int) == before_suffixes(
                name@,
                tail@,
                a as int,
                b as int,
            ),
        decreases b,
    {
        b = b - tail.len();
    }
    proof {
        lemma_parse_smaller(name@.subrange(a as int, b as int));
    }
    match parse_u64_at(&cs, a, b) {
        Some(v) => if v <= 0xffff_ffff {
            v as u32
        } else {
            0
        },
        None => 0,
    }
}

// ── reading pptx ────────────────────────────────────────────────────────────

pub open spec fn is_slide_name(n: Seq<char>) -> bool {
    starts_with(n, "ppt/slides/slide"@) && ends_with(n, ".xml"@)
}

/// The names of slide parts among the first `n`.
pub open spec fn slide_names(names: Seq<Seq<char>>, n: nat) -> Seq<Seq<char>>
    decreases n,
{
    if n == 0 || n > names.len() {
        Seq::empty()
    } else {
        let before = slide_names(names, (n - 1) as nat);
        if is_slide_name(names[n - 1]) {
            before.push(names[n - 1])
        } else {
            before
        }
    }
}

/// Whether slide `x` of the names comes before slide `y` by number.
pub open spec fn lower_number(names: Seq<Seq<char>>) -> spec_fn(int, int) -> bool {
    |x: int, y: int| slide_number(names[x]) < slide_number(names[y])
}

/// Names in the order of their slide numbers.
pub open spec fn by_number(names: Seq<Seq<char>>) -> Seq<Seq<char>> {
    in_order(names, lower_number(names))
}

/// The relationship part of a slide.
pub open spec fn rels_of(slide: Seq<char>) -> Seq<char> {
    let p = after_last(slide, '/', slide.len() as int);
    slide.subrange(0, p - 1) + "/_rels/"@ + slide.subrange(p, slide.len() as int) + ".rels"@
}

/// The notes part of a slide, by the slide's relationship part.
pub open spec fn notes_part(archive: Seq<u8>, slide: Seq<char>) -> Option<Seq<char>> {
    let p = after_last(slide, '/', slide.len() as int);
    if p == 0 {
        None
    } else {
        let dir = slide.subrange(0, p - 1);
        match zip_entry(archive, rels_of(slide)) {
            Ok(rels) => match relationship_target(xml_items(rels, true), "notesSlide"@, 0) {
                Some(t) => Some(resolved_path(dir, t)),
                None => None,
            },
            Err(_) => None,
        }
    }
}

/// Whether the relationships of a slide, where they are a plain document, are read as what
/// they were written from.
pub open spec fn link_reads_back(archive: Seq<u8>, slide: Seq<char>) -> bool {
    after_last(slide, '/', slide.len() as int) > 0 ==> match zip_entry(archive, rels_of(slide)) {
        Ok(x) => reads_back(x, true),
        Err(_) => true,
    }
}

pub fn pptx_notes_part(archive: &[u8], slide_name: &str) -> (r: Option<String>)
    ensures
        opt_text(r) == notes_part(archive@, slide_name@),
        link_reads_back(archive@, slide_name@),
{
    let cs = chars_of(slide_name);
    let mut p: usize = cs.len();
    while p > 0 && cs[p - 1] != '/'
        invariant
            p <= cs@.len(),
            cs@ == slide_name@,
            after_last(cs@, '/', cs@.len() as int) == after_last(cs@, '/', p as int),
        decreases p,
    {
        p = p - 1;
    }
    if p == 0 {
        return None;
    }
    let dir = slice_text(&cs, 0, p - 1);
    let file = slice_text(&cs, p, cs.len());
    let mut rels_name = concat3(dir.as_str(), "/_rels/", file.as_str());
    rels_name.push_str(".rels");
    match read_zip_entry(archive, rels_name.as_str()) {
        Ok(rels) => match rels_relationship_target(rels.as_slice(), "notesSlide") {
            Some(t) => Some(resolve_zip_path(dir.as_str(), t.as_str())),
            None => None,
        },
        Err(_) => None,
    }
}

/// The paragraph element of drawings.
pub open spec fn drawing_tags() -> Seq<Seq<char>> {
    seq!["a:p"@]
}

/// The notes of a slide; none where it has no notes part that can be read.
pub open spec fn slide_notes(archive: Seq<u8>, slide: Seq<char>) -> Seq<Seq<char>> {
    match notes_part(archive, slide) {
        Some(p) => match zip_entry(archive, p) {
            Ok(x) => paragraphs(xml_items(x, true), drawing_tags()),
            Err(_) => Seq::empty(),
        },
        None => Seq::empty(),
    }
}

/// Whether the notes of a slide, and what links it to them, are read as what they were
/// written from where they are plain documents.
pub open spec fn notes_read_back(archive: Seq<u8>, slide: Seq<char>) -> bool {
    &&& link_reads_back(archive, slide)
    &&& match notes_part(archive, slide) {
        Some(p) => match zip_entry(archive, p) {
            Ok(x) => reads_back(x, true),
            Err(_) => true,
        },
        None => true,
    }
}

/// What the first `n` slide parts say, or the first fault.
pub open spec fn slides_from(archive: Seq<u8>, names: Seq<Seq<char>>, n: nat) -> Result<
    Seq<SlideView>,
    Seq<char>,
>
    decreases n,
{
    if n == 0 || n > names.len() {
        Ok(Seq::empty())
    } else {
        match slides_from(archive, names, (n - 1) as nat) {
            Err(e) => Err(e),
            Ok(before) => match zip_entry(archive, names[n - 1]) {
                Err(e) => Err(e),
                Ok(x) => Ok(
                    before.push(
                        (
                            paragraphs(xml_items(x, true), drawing_tags()),
                            slide_notes(archive, names[n - 1]),
                        ),
                    ),
                ),
            },
        }
    }
}

/// The slide parts of a pptx, in the order of their numbers.
pub open spec fn slide_parts(archive: Seq<u8>) -> Seq<Seq<char>> {
    match zip_items(archive) {
        Err(_) => Seq::empty(),
        Ok(items) => {
            let all = item_names(items, items.len());
            by_number(slide_names(all, all.len()))
        },
    }
}

/// What the slides of a pptx say, in the order of their numbers.
pub open spec fn pptx_slides(archive: Seq<u8>) -> Result<Seq<SlideView>, Seq<char>> {
    match zip_items(archive) {
        Err(e) => Err(e),
        Ok(_) => slides_from(archive, slide_parts(archive), slide_parts(archive).len()),
    }
}

/// Whether the notes of each slide of a pptx are read as what they were written from.
pub open spec fn all_notes_read_back(archive: Seq<u8>) -> bool {
    forall|k: int|
        0 <= k < slide_parts(archive).len() ==> notes_read_back(
            archive,
            #[trigger] slide_parts(archive)[k],
        )
}

fn drawing_tag_list() -> (r: Vec<String>)
    ensures
        r.deep_view() == drawing_tags(),
{
    let mut v: Vec<String> = Vec::new();
    push_deep(&mut v, copy_text("a:p"));
    assert(v.deep_view() =~= drawing_tags());
    v
}

fn no_texts() -> (r: Vec<String>)
    ensures
        r.deep_view() == Seq::<Seq<char>>::empty(),
{
    let v: Vec<String> = Vec::new();
    assert(v.deep_view() =~= Seq::<Seq<char>>::empty());
    v
}

fn notes_of(archive: &[u8], slide: &str) -> (r: Vec<String>)
    ensures
        r.deep_view() == slide_notes(archive@, slide@),
        notes_read_back(archive@, slide@),
{
    match pptx_notes_part(archive, slide) {
        Some(p) => match read_zip_entry(archive, p.as_str()) {
            Ok(x) => extract_paragraphs(x.as_slice(), &drawing_tag_list()),
            Err(_) => no_texts(),
        },
        None => no_texts(),
    }
}

proof fn lemma_slides_fault(archive: Seq<u8>, names: Seq<Seq<char>>, i: nat, n: nat)
    requires
        i <= n <= names.len(),
        slides_from(archive, names, i) is Err,
    ensures
        slides_from(archive, names, n) == slides_from(archive, names, i),
    decreases n - i,
{
    if i < n {
        lemma_slides_fault(archive, names, i, (n - 1) as nat);
    }
}

fn sort_by_number(names: &Vec<String>) -> (r: Vec<String>)
    ensures
        r.deep_view() == by_number(names.deep_view()),
{
    let ghost nv = names.deep_view();
    let ghost lt = lower_number(nv);
    let less = |x: usize, y: usize| -> (b: bool)
        requires
            x < names@.len(),
            y < names@.len(),
        ensures
            b == (slide_number(names@[x as int]@) < slide_number(names@[y as int]@)),
        { slide_index(names[x].as_str()) < slide_index(names[y].as_str()) };
    assert forall|x: usize, y: usize| x < names@.len() && y < names@.len() implies #[trigger] lt(
        x as int,
        y as int,
    ) == (slide_number(names@[x as int]@) < slide_number(names@[y as int]@)) by {
        assert(nv[x as int] == names@[x as int]@);
        assert(nv[y as int] == names@[y as int]@);
    }
    assert(is_weak_order(lt, names@.len() as int));
    let order = stable_order(names.len(), &less, Ghost(lt));
    let ghost want = by_number(nv);
    let mut out: Vec<String> = Vec::new();
    let mut i: usize = 0;
    while i < order.len()
        invariant
            i <= order@.len(),
            order@.len() == names@.len(),
            order@ == order_of(names@.len() as int, lt),
            forall|a: int| 0 <= a < order@.len() ==> 0 <= #[trigger] order@[a] < names@.len(),
            nv == names.deep_view(),
            lt == lower_number(nv),
            want == by_number(nv),
            out.deep_view() == want.take(i as int),
        decreases order@.len() - i,
    {
        let k = order[i];
        assert(nv[k as int] == names@[k as int]@);
        push_deep(&mut out, names[k].clone());
        i = i + 1;
        assert(out.deep_view() =~= want.take(i as int));
    }
    assert(want.take(i as int) =~= want);
    out
}

/// What the slides of a pptx say.
pub fn read_pptx(archive: &[u8]) -> (r: Result<Vec<SlideText>, String>)
    ensures
        res_slides(r) == pptx_slides(archive@),
        r is Ok ==> all_notes_read_back(archive@),
{
    let all = match zip_entry_names(archive) {
        Ok(v) => v,
        Err(e) => {
            return Err(e);
        },
    };
    let mut picked: Vec<String> = Vec::new();
    let mut k: usize = 0;
    assert(picked.deep_view() =~= Seq::<Seq<char>>::empty());
    while k < all.len()
        invariant
            k <= all@.len(),
            picked.deep_view() == slide_names(all.deep_view(), k as nat),
        decreases all@.len() - k,
    {
        assert(all.deep_view()[k as int] == all@[k as int]@);
        if text_starts_with(all[k].as_str(), "ppt/slides/slide") && text_ends_with(
            all[k].as_str(),
            ".xml",
        ) {
            push_deep(&mut picked, all[k].clone());
        }
        k = k + 1;
    }
    let names = sort_by_number(&picked);
    let ghost nv = names.deep_view();
    let mut out: Vec<SlideText> = Vec::new();
    let mut i: usize = 0;
    assert(out.deep_view() =~= Seq::<SlideView>::empty());
    while i < names.len()
        invariant
            i <= names@.len(),
            nv == names.deep_view(),
            nv == slide_parts(archive@),
            pptx_slides(archive@) == slides_from(archive@, nv, nv.len()),
            forall|k: int| 0 <= k < i ==> notes_read_back(archive@, #[trigger] nv[k]),
            slides_from(archive@, nv, i as nat) == Ok::<Seq<SlideView>, Seq<char>>(
                out.deep_view(),
            ),
        decreases names@.len() - i,
    {
        assert(nv[i as int] == names@[i as int]@);
        match read_zip_entry(archive, names[i].as_str()) {
            Ok(x) => {
                let text = extract_paragraphs(x.as_slice(), &drawing_tag_list());
                let notes = notes_of(archive, names[i].as_str());
                let ghost slide = (text.deep_view(), notes.deep_view());
                push_deep(&mut out, (text, notes));
                assert(out.deep_view().last() == slide);
            },
            Err(e) => {
                proof {
                    lemma_slides_fault(archive@, nv, (i + 1) as nat, nv.len());
                }
                return Err(e);
            },
        }
        i = i + 1;
    }
    Ok(out)
}

// ── reading odp ─────────────────────────────────────────────────────────────

/// The `draw:page` elements of a text from position `i` on, each without its end tag.
pub open spec fn pages_from(s: Seq<char>, i: int) -> Seq<Seq<char>>
    decreases s.len() - i,
{
    match find_from(s, "<draw:page"@, i) {
        Some(a) => match find_from(s, "</draw:page>"@, a) {
            Some(e) => if 0 <= i <= a <= e < e + "</draw:page>"@.len() <= s.len() {
                seq![s.subrange(a, e)] + pages_from(s, e + "</draw:page>"@.len())
            } else {
                Seq::empty()
            },
            None => Seq::empty(),
        },
        None => Seq::empty(),
    }
}

/// The pages of an odp body, as texts.
pub fn split_draw_pages(xml: &[u8]) -> (r: Vec<String>)
    ensures
        r.deep_view() == pages_from(lossy_text(xml@), 0),
{
    let s = text_of_bytes(xml);
    let cs = chars_of(s.as_str());
    let open = chars_of("<draw:page");
    let close = chars_of("</draw:page>");
    proof {
        reveal_strlit("</draw:page>");
    }
    let total: usize = cs.len();
    let mut out: Vec<String> = Vec::new();
    let mut i: usize = 0;
    let ghost all = pages_from(cs@, 0);
    assert(out.deep_view() + pages_from(cs@, 0) =~= all);
    loop
        invariant_except_break
            i <= cs@.len(),
            total == cs@.len(),
            open@ == "<draw:page"@,
            close@ == "</draw:page>"@,
            close@.len() > 0,
            out.deep_view() + pages_from(cs@, i as int) == all,
        ensures
            out.deep_view() == all,
        decreases cs@.len() - i,
    {
        let a = match find_text(&cs, &open, i) {
            Some(a) => a,
            None => {
                assert(out.deep_view() =~= all);
                break;
            },
        };
        let e = match find_text(&cs, &close, a) {
            Some(e) => e,
            None => {
                assert(out.deep_view() =~= all);
                break;
            },
        };
        let ghost before = out.deep_view();
        push_deep(&mut out, slice_text(&cs, a, e));
        assert(out.deep_view() + pages_from(cs@, e + close@.len()) =~= before + (seq![
            cs@.subrange(a as int, e as int),
        ] + pages_from(cs@, e + close@.len())));
        assert(e + close@.len() <= total);
        i = e + close.len();
    }
    out
}

/// What has been read of an odp page.
#[verifier::ext_equal]
pub struct PageView {
    pub main: Seq<Seq<char>>,
    pub notes: Seq<Seq<char>>,
    pub in_notes: int,
    pub in_para: bool,
    pub cur: Seq<char>,
}

pub open spec fn page_step(st: PageView, ev: EventView) -> PageView {
    match ev {
        EventView::Start(tag) => if tag.name == "presentation:notes"@ {
            PageView { in_notes: st.in_notes + 1, ..st }
        } else if tag.name == "text:p"@ {
            PageView { in_para: true, cur: Seq::empty(), ..st }
        } else {
            st
        },
        EventView::End(n) => if n == "text:p"@ && st.in_para {
            if st.in_notes > 0 {
                PageView { in_para: false, notes: st.notes.push(st.cur), cur: Seq::empty(), ..st }
            } else {
                PageView { in_para: false, main: st.main.push(st.cur), cur: Seq::empty(), ..st }
            }
        } else if n == "presentation:notes"@ {
            PageView { in_notes: st.in_notes - 1, ..st }
        } else {
            st
        },
        _ => if st.in_para {
            PageView { cur: st.cur + event_text(ev), ..st }
        } else {
            st
        },
    }
}

/// The state after the first `n` events.
pub open spec fn page_run(evs: Seq<EventView>, n: nat) -> PageView
    decreases n,
{
    if n == 0 || n > evs.len() {
        PageView {
            main: Seq::empty(),
            notes: Seq::empty(),
            in_notes: 0,
            in_para: false,
            cur: Seq::empty(),
        }
    } else {
        page_step(page_run(evs, (n - 1) as nat), evs[n - 1])
    }
}

/// The paragraphs of a page, split into those of the slide and those inside its notes.
pub open spec fn page_text(evs: Seq<EventView>) -> SlideView {
    (page_run(evs, evs.len()).main, page_run(evs, evs.len()).notes)
}

/// The paragraphs of a page among events.
pub fn collect_page(evs: &Vec<XmlEvent>) -> (r: SlideText)
    ensures
        r.deep_view() == page_text(evs.deep_view()),
{
    let mut main: Vec<String> = no_texts();
    let mut notes: Vec<String> = no_texts();
    let mut in_notes: i128 = 0;
    let mut in_para = false;
    let mut cur = String::new();
    let mut i: usize = 0;
    while i < evs.len()
        invariant
            i <= evs@.len(),
            -(i as int) <= in_notes <= i,
            (PageView {
                main: main.deep_view(),
                notes: notes.deep_view(),
                in_notes: in_notes as int,
                in_para,
                cur: cur@,
            }) == page_run(evs.deep_view(), i as nat),
        decreases evs@.len() - i,
    {
        assert(evs.deep_view()[i as int] == evs@[i as int].deep_view());
        match &evs[i] {
            XmlEvent::Start(tag) => {
                if same(tag.name.as_str(), "presentation:notes") {
                    in_notes = in_notes + 1;
                } else if same(tag.name.as_str(), "text:p") {
                    in_para = true;
                    cur = String::new();
                }
            },
            XmlEvent::End(n) => {
                if same(n.as_str(), "text:p") && in_para {
                    in_para = false;
                    if in_notes > 0 {
                        push_deep(&mut notes, cur);
                    } else {
                        push_deep(&mut main, cur);
                    }
                    cur = String::new();
                } else if same(n.as_str(), "presentation:notes") {
                    in_notes = in_notes - 1;
                }
            },
            ev => {
                if in_para {
                    push_event_text(&mut cur, ev);
                }
            },
        }
        i = i + 1;
    }
    (main, notes)
}

/// The paragraphs of an odp page: those of the slide and those of its notes.
pub fn odp_text_and_notes(page: &[u8]) -> (r: SlideText)
    ensures
        r.deep_view() == page_text(xml_items(page@, true)),
{
    let evs = xml_events(page, true);
    collect_page(&evs)
}

/// What the slides of an odp say.
pub open spec fn odp_slides(archive: Seq<u8>) -> Result<Seq<SlideView>, Seq<char>> {
    match zip_entry(archive, "content.xml"@) {
        Err(e) => Err(e),
        Ok(xml) => {
            let pages = pages_from(lossy_text(xml), 0);
            Ok(
                Seq::new(
                    pages.len(),
                    |i: int| page_text(xml_items(encode_utf8(pages[i]), true)),
                ),
            )
        },
    }
}

pub fn read_odp(archive: &[u8]) -> (r: Result<Vec<SlideText>, String>)
    ensures
        res_slides(r) == odp_slides(archive@),
{
    let xml = match read_zip_entry(archive, "content.xml") {
        Ok(x) => x,
        Err(e) => {
            return Err(e);
        },
    };
    let pages = split_draw_pages(xml.as_slice());
    let ghost pv = pages.deep_view();
    let ghost want = Seq::new(
        pv.len(),
        |i: int| page_text(xml_items(encode_utf8(pv[i]), true)),
    );
    let mut out: Vec<SlideText> = Vec::new();
    let mut i: usize = 0;
    while i < pages.len()
        invariant
            i <= pages@.len(),
            pv == pages.deep_view(),
            want == Seq::new(
                pv.len(),
                |i: int| page_text(xml_items(encode_utf8(pv[i]), true)),
            ),
            out.deep_view() == want.take(i as int),
        decreases pages@.len() - i,
    {
        assert(pv[i as int] == pages@[i as int]@);
        let bytes = bytes_of_text(pages[i].as_str());
        push_deep(&mut out, odp_text_and_notes(bytes.as_slice()));
        i = i + 1;
        assert(out.deep_view() =~= want.take(i as int));
    }
    assert(want.take(i as int) =~= want);
    Ok(out)
}

/// What the slides of a presentation say, by the extension of its path.
pub open spec fn presentation_slides(archive: Seq<u8>, ext: Seq<char>) -> Result<
    Seq<SlideView>,
    Seq<char>,
> {
    if ext == "pptx"@ {
        pptx_slides(archive)
    } else if ext == "odp"@ {
        odp_slides(archive)
    } else {
        Err("unsupported presentation read format: "@ + ext)
    }
}

pub fn op_slides_read(archive: &[u8], ext: &str) -> (r: Result<Vec<SlideText>, String>)
    ensures
        res_slides(r) == presentation_slides(archive@, ext@),
        r is Ok && ext@ == "pptx"@ ==> all_notes_read_back(archive@),
{
    if same(ext, "pptx") {
        read_pptx(archive)
    } else if same(ext, "odp") {
        read_odp(archive)
    } else {
        Err(concat2("unsupported presentation read format: ", ext))
    }
}

// ── what a page is written as ───────────────────────────────────────────────

/// A paragraph as it is written: its tag and what is said in it.
pub type PagePara = (TagView, Seq<EventView>);

/// What a page has: paragraphs, and notes with their own.
pub enum PageItem {
    Para(PagePara),
    Notes(TagView, Seq<PagePara>),
}

pub open spec fn is_page_para(p: PagePara) -> bool {
    &&& p.0.name == "text:p"@
    &&& forall|i: int| 0 <= i < p.1.len() ==> #[trigger] p.1[i] is Text || p.1[i] is Reference
}

pub open spec fn is_page_item(x: PageItem) -> bool {
    match x {
        PageItem::Para(p) => is_page_para(p),
        PageItem::Notes(t, ps) => t.name == "presentation:notes"@ && forall|k: int|
            0 <= k < ps.len() ==> is_page_para(#[trigger] ps[k]),
    }
}

pub open spec fn para_events(p: PagePara) -> Seq<EventView> {
    seq![EventView::Start(p.0)] + p.1 + seq![EventView::End(p.0.name)]
}

pub open spec fn paras_events(ps: Seq<PagePara>) -> Seq<EventView>
    decreases ps.len(),
{
    if ps.len() == 0 {
        Seq::empty()
    } else {
        paras_events(ps.drop_last()) + para_events(ps.last())
    }
}

pub open spec fn item_events(x: PageItem) -> Seq<EventView> {
    match x {
        PageItem::Para(p) => para_events(p),
        PageItem::Notes(t, ps) => seq![EventView::Start(t)] + paras_events(ps) + seq![
            EventView::End(t.name),
        ],
    }
}

pub open spec fn page_events(items: Seq<PageItem>) -> Seq<EventView>
    decreases items.len(),
{
    if items.len() == 0 {
        Seq::empty()
    } else {
        page_events(items.drop_last()) + item_events(items.last())
    }
}

/// What the paragraphs of the slide itself say.
pub open spec fn said_on_slide(items: Seq<PageItem>) -> Seq<Seq<char>>
    decreases items.len(),
{
    if items.len() == 0 {
        Seq::empty()
    } else {
        match items.last() {
            PageItem::Para(p) => said_on_slide(items.drop_last()).push(said(p.1)),
            PageItem::Notes(_, _) => said_on_slide(items.drop_last()),
        }
    }
}

/// What the paragraphs of the notes say.
pub open spec fn said_in_notes(items: Seq<PageItem>) -> Seq<Seq<char>>
    decreases items.len(),
{
    if items.len() == 0 {
        Seq::empty()
    } else {
        match items.last() {
            PageItem::Para(_) => said_in_notes(items.drop_last()),
            PageItem::Notes(_, ps) => said_in_notes(items.drop_last()) + Seq::new(
                ps.len(),
                |k: int| said(ps[k].1),
            ),
        }
    }
}

pub open spec fn page_on(st: PageView, evs: Seq<EventView>) -> PageView
    decreases evs.len(),
{
    if evs.len() == 0 {
        st
    } else {
        page_step(page_on(st, evs.drop_last()), evs.last())
    }
}

proof fn lemma_page_on(st: PageView, a: Seq<EventView>, b: Seq<EventView>)
    ensures
        page_on(st, a + b) == page_on(page_on(st, a), b),
    decreases b.len(),
{
    if b.len() == 0 {
        assert(a + b =~= a);
    } else {
        lemma_page_on(st, a, b.drop_last());
        assert((a + b).drop_last() =~= a + b.drop_last());
        assert((a + b).last() == b.last());
    }
}

proof fn lemma_page_one(st: PageView, e: EventView)
    ensures
        page_on(st, seq![e]) == page_step(st, e),
{
    assert(seq![e].drop_last() =~= Seq::<EventView>::empty());
    assert(page_on(st, Seq::<EventView>::empty()) == st);
    assert(seq![e].last() == e);
}

proof fn lemma_page_run(evs: Seq<EventView>, n: nat)
    requires
        n <= evs.len(),
    ensures
        page_run(evs, n) == page_on(page_run(evs, 0), evs.take(n as int)),
    decreases n,
{
    if n > 0 {
        lemma_page_run(evs, (n - 1) as nat);
        assert(evs.take(n as int).drop_last() =~= evs.take(n - 1));
        assert(evs.take(n as int).last() == evs[n - 1]);
    }
}

proof fn lemma_page_names()
    ensures
        "text:p"@ != "presentation:notes"@,
{
    reveal_strlit("text:p");
    reveal_strlit("presentation:notes");
    assert("text:p"@.len() == 6);
    assert("presentation:notes"@.len() == 18);
}

proof fn lemma_page_words(st: PageView, evs: Seq<EventView>)
    requires
        st.in_para,
        forall|i: int| 0 <= i < evs.len() ==> #[trigger] evs[i] is Text || evs[i] is Reference,
    ensures
        page_on(st, evs) == (PageView { cur: st.cur + said(evs), ..st }),
    decreases evs.len(),
{
    if evs.len() == 0 {
        assert(st.cur + said(evs) =~= st.cur);
    } else {
        let front = evs.drop_last();
        assert forall|i: int| 0 <= i < front.len() implies #[trigger] front[i] is Text
            || front[i] is Reference by {
            assert(front[i] == evs[i]);
        }
        lemma_page_words(st, front);
        let ev = evs.last();
        assert(ev == evs[evs.len() - 1]);
        events_say_their_text(ev);
        assert(st.cur + said(front) + said_by(ev) =~= st.cur + said(evs));
    }
}

proof fn lemma_page_para(st: PageView, p: PagePara)
    requires
        is_page_para(p),
        !st.in_para,
    ensures
        ({
            let now = page_on(st, para_events(p));
            &&& !now.in_para
            &&& now.in_notes == st.in_notes
            &&& st.in_notes > 0 ==> now.main == st.main && now.notes == st.notes.push(said(p.1))
            &&& st.in_notes <= 0 ==> now.notes == st.notes && now.main == st.main.push(said(p.1))
        }),
{
    lemma_page_names();
    let a = seq![EventView::Start(p.0)];
    let e = seq![EventView::End(p.0.name)];
    lemma_page_on(st, a + p.1, e);
    lemma_page_on(st, a, p.1);
    lemma_page_one(st, a[0]);
    let one = page_on(st, a);
    lemma_page_words(one, p.1);
    let two = page_on(one, p.1);
    assert(two.cur =~= said(p.1));
    lemma_page_one(two, e[0]);
}

proof fn lemma_page_notes(st: PageView, ps: Seq<PagePara>)
    requires
        forall|k: int| 0 <= k < ps.len() ==> is_page_para(#[trigger] ps[k]),
        !st.in_para,
        st.in_notes > 0,
    ensures
        ({
            let now = page_on(st, paras_events(ps));
            &&& !now.in_para
            &&& now.in_notes == st.in_notes
            &&& now.main == st.main
            &&& now.notes == st.notes + Seq::new(ps.len(), |k: int| said(ps[k].1))
        }),
    decreases ps.len(),
{
    let all = Seq::new(ps.len(), |k: int| said(ps[k].1));
    if ps.len() == 0 {
        assert(st.notes + all =~= st.notes);
    } else {
        let front = ps.drop_last();
        assert forall|k: int| 0 <= k < front.len() implies is_page_para(#[trigger] front[k]) by {
            assert(front[k] == ps[k]);
        }
        lemma_page_notes(st, front);
        assert(is_page_para(ps[ps.len() - 1]));
        lemma_page_on(st, paras_events(front), para_events(ps.last()));
        lemma_page_para(page_on(st, paras_events(front)), ps.last());
        assert((st.notes + Seq::new(front.len(), |k: int| said(front[k].1))).push(
            said(ps.last().1),
        ) =~= st.notes + all);
    }
}

/// A page that is written says on the slide what its own paragraphs say, and in the notes what
/// those of its notes say.
pub proof fn pages_say_what_is_written(items: Seq<PageItem>)
    requires
        forall|k: int| 0 <= k < items.len() ==> is_page_item(#[trigger] items[k]),
    ensures
        page_text(page_events(items)) == (said_on_slide(items), said_in_notes(items)),
{
    let evs = page_events(items);
    lemma_page_run(evs, evs.len());
    assert(evs.take(evs.len() as int) =~= evs);
    lemma_page_items(page_run(evs, 0), items);
}

proof fn lemma_page_items(st: PageView, items: Seq<PageItem>)
    requires
        forall|k: int| 0 <= k < items.len() ==> is_page_item(#[trigger] items[k]),
        !st.in_para,
        st.in_notes == 0,
        st.main.len() == 0,
        st.notes.len() == 0,
    ensures
        ({
            let now = page_on(st, page_events(items));
            &&& !now.in_para
            &&& now.in_notes == 0
            &&& now.main == said_on_slide(items)
            &&& now.notes == said_in_notes(items)
        }),
    decreases items.len(),
{
    lemma_page_names();
    if items.len() == 0 {
        assert(st.main =~= Seq::<Seq<char>>::empty());
        assert(st.notes =~= Seq::<Seq<char>>::empty());
    } else {
        let front = items.drop_last();
        assert forall|k: int| 0 <= k < front.len() implies is_page_item(#[trigger] front[k]) by {
            assert(front[k] == items[k]);
        }
        lemma_page_items(st, front);
        let x = items.last();
        assert(x == items[items.len() - 1]);
        assert(is_page_item(x));
        let was = page_on(st, page_events(front));
        lemma_page_on(st, page_events(front), item_events(x));
        match x {
            PageItem::Para(p) => {
                lemma_page_para(was, p);
            },
            PageItem::Notes(t, ps) => {
                let a = seq![EventView::Start(t)];
                let e = seq![EventView::End(t.name)];
                lemma_page_on(was, a + paras_events(ps), e);
                lemma_page_on(was, a, paras_events(ps));
                lemma_page_one(was, a[0]);
                let one = page_on(was, a);
                lemma_page_notes(one, ps);
                lemma_page_one(page_on(one, paras_events(ps)), e[0]);
            },
        }
    }
}

proof fn lemma_slide_names(names: Seq<Seq<char>>, n: nat)
    requires
        n <= names.len(),
    ensures
        slide_names(names, n) == names.take(n as int).filter(
            |s: Seq<char>| starts_with(s, "ppt/slides/slide"@) && ends_with(s, ".xml"@),
        ),
        slide_names(names, n).len() <= n,
    decreases n,
{
    reveal(Seq::filter);
    if n > 0 {
        lemma_slide_names(names, (n - 1) as nat);
        assert(names.take(n as int).drop_last() =~= names.take(n - 1));
        assert(names.take(n as int).last() == names[n - 1]);
    } else {
        assert(names.take(0) =~= Seq::empty());
    }
}

/// The slides of a presentation are the parts with the name of a slide, by their numbers.
pub proof fn slides_come_by_their_numbers(names: Seq<Seq<char>>, i: int, j: int)
    requires
        names.len() <= usize::MAX,
        0 <= j < i < by_number(slide_names(names, names.len())).len(),
    ensures
        ({
            let out = by_number(slide_names(names, names.len()));
            let all = names.filter(
                |s: Seq<char>| starts_with(s, "ppt/slides/slide"@) && ends_with(s, ".xml"@),
            );
            &&& out.len() == all.len()
            &&& all.contains(out[i])
            &&& slide_number(out[j]) <= slide_number(out[i])
        }),
{
    let all = slide_names(names, names.len());
    lemma_slide_names(names, names.len());
    assert(names.take(names.len() as int) =~= names);
    let lt = lower_number(all);
    let n = all.len() as int;
    assert(is_weak_order(lt, n));
    lemma_stable_sort_exists(n, lt);
    let r = order_of(n, lt);
    assert(is_stable_sort(r, n, lt));
    assert(before(lt, r[j] as int, r[i] as int));
    assert(all[r[i] as int] == by_number(all)[i]);
}

} // verus!
