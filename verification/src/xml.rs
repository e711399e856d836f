//! XML parts as sequences of events, and what is read from them.

use crate::deep::push_deep;
use crate::text::{concat2, copy_text, is_digit, is_letter, same};
use quick_xml::events::Event;
use vstd::prelude::*;
use vstd::utf8::encode_utf8;

verus! {

// ── events ──────────────────────────────────────────────────────────────────

/// An attribute: its key, its value as written, and its value with references
/// resolved, where they all resolve.
pub struct Attr {
    pub key: String,
    pub raw: String,
    pub value: Option<String>,
}

/// The name and the attributes of a start tag or an empty-element tag.
pub struct Tag {
    pub name: String,
    pub attrs: Vec<Attr>,
}

/// What an XML reader comes across.
pub enum XmlEvent {
    Start(Tag),
    Empty(Tag),
    End(String),
    /// Character data, where it decodes.
    Text(Option<String>),
    /// A reference: the character of a numeric one, and the name.
    Reference(Option<char>, String),
    /// Anything else: comments, declarations and the like.
    Other,
}

#[verifier::ext_equal]
pub struct AttrView {
    pub key: Seq<char>,
    pub raw: Seq<char>,
    pub value: Option<Seq<char>>,
}

#[verifier::ext_equal]
pub struct TagView {
    pub name: Seq<char>,
    pub attrs: Seq<AttrView>,
}

#[verifier::ext_equal]
pub enum EventView {
    Start(TagView),
    Empty(TagView),
    End(Seq<char>),
    Text(Option<Seq<char>>),
    Reference(Option<char>, Seq<char>),
    Other,
}

pub open spec fn opt_text(t: Option<String>) -> Option<Seq<char>> {
    match t {
        Some(s) => Some(s@),
        None => None,
    }
}

impl DeepView for Attr {
    type V = AttrView;

    open spec fn deep_view(&self) -> AttrView {
        AttrView { key: self.key@, raw: self.raw@, value: opt_text(self.value) }
    }
}

impl DeepView for Tag {
    type V = TagView;

    open spec fn deep_view(&self) -> TagView {
        TagView { name: self.name@, attrs: self.attrs.deep_view() }
    }
}

impl DeepView for XmlEvent {
    type V = EventView;

    open spec fn deep_view(&self) -> EventView {
        match self {
            XmlEvent::Start(t) => EventView::Start(t.deep_view()),
            XmlEvent::Empty(t) => EventView::Empty(t.deep_view()),
            XmlEvent::End(n) => EventView::End(n@),
            XmlEvent::Text(t) => EventView::Text(opt_text(*t)),
            XmlEvent::Reference(c, n) => EventView::Reference(*c, n@),
            XmlEvent::Other => EventView::Other,
        }
    }
}

/// `quick_xml`'s pull parser.
#[verifier::external_type_specification]
#[verifier::external_body]
#[verifier::reject_recursive_types(R)]
pub struct ExReader<R>(quick_xml::Reader<R>);

/// `quick_xml`'s start tag.
#[verifier::external_type_specification]
#[verifier::external_body]
pub struct ExBytesStart<'a>(quick_xml::events::BytesStart<'a>);

// ── plain documents ─────────────────────────────────────────────────────────

/// Whether a text is a name made of ASCII letters, digits, colons, hyphens, underscores and
/// points, with a letter in front.
pub open spec fn is_plain_name(n: Seq<char>) -> bool {
    n.len() > 0 && is_letter(n[0]) && forall|i: int|
        0 <= i < n.len() ==> is_letter(#[trigger] n[i]) || is_digit(n[i]) || n[i] == ':' || n[i]
            == '-' || n[i] == '_' || n[i] == '.'
}

/// Whether an attribute can be written between double quotes as it stands.
pub open spec fn is_plain_attr(a: AttrView) -> bool {
    is_plain_name(a.key) && a.value == Some(a.raw) && forall|i: int|
        0 <= i < a.raw.len() ==> #[trigger] a.raw[i] != '"' && a.raw[i] != '<' && a.raw[i] != '>'
            && a.raw[i] != '&' && a.raw[i] != '\t' && a.raw[i] != '\n' && a.raw[i] != '\r'
}

pub open spec fn is_plain_tag(t: TagView) -> bool {
    &&& is_plain_name(t.name)
    &&& forall|i: int| 0 <= i < t.attrs.len() ==> is_plain_attr(#[trigger] t.attrs[i])
    &&& forall|i: int, j: int|
        #![trigger t.attrs[i], t.attrs[j]]
        0 <= i < j < t.attrs.len() ==> t.attrs[i].key != t.attrs[j].key
}

/// Whether a text can be written between tags as it stands.
pub open spec fn is_plain_text(t: Seq<char>) -> bool {
    t.len() > 0 && forall|i: int|
        0 <= i < t.len() ==> #[trigger] t[i] != '<' && t[i] != '&' && t[i] != '\r'
}

pub open spec fn is_plain_event(ev: EventView) -> bool {
    match ev {
        EventView::Start(t) => is_plain_tag(t),
        EventView::Empty(t) => is_plain_tag(t),
        EventView::End(n) => is_plain_name(n),
        EventView::Text(Some(t)) => is_plain_text(t),
        EventView::Reference(None, n) => n == "amp"@ || n == "lt"@ || n == "gt"@ || n == "quot"@,
        _ => false,
    }
}

/// The elements that the first `n` events leave open; nothing where one closes another.
pub open spec fn open_tags(evs: Seq<EventView>, n: nat) -> Option<Seq<Seq<char>>>
    decreases n,
{
    if n == 0 || n > evs.len() {
        Some(Seq::empty())
    } else {
        match (open_tags(evs, (n - 1) as nat), evs[n - 1]) {
            (Some(open), EventView::Start(t)) => Some(open.push(t.name)),
            (Some(open), EventView::End(name)) => if open.len() > 0 && open.last() == name {
                Some(open.drop_last())
            } else {
                None
            },
            (before, _) => before,
        }
    }
}

/// Whether events make a document of plain tags, texts and references, in which each
/// element is closed and no text follows another.
pub open spec fn is_plain_document(evs: Seq<EventView>) -> bool {
    &&& forall|i: int| 0 <= i < evs.len() ==> is_plain_event(#[trigger] evs[i])
    &&& forall|i: int|
        0 <= i < evs.len() - 1 && #[trigger] evs[i] is Text ==> !(evs[i + 1] is Text)
    &&& open_tags(evs, evs.len()) == Some(Seq::<Seq<char>>::empty())
}

/// The first `n` attributes, each behind a blank.
pub open spec fn attrs_xml(attrs: Seq<AttrView>, n: nat) -> Seq<char>
    decreases n,
{
    if n == 0 || n > attrs.len() {
        Seq::empty()
    } else {
        attrs_xml(attrs, (n - 1) as nat) + " "@ + attrs[n - 1].key + "=\""@ + attrs[n - 1].raw
            + "\""@
    }
}

/// An event as it is written.
pub open spec fn event_xml(ev: EventView) -> Seq<char> {
    match ev {
        EventView::Start(t) => "<"@ + t.name + attrs_xml(t.attrs, t.attrs.len()) + ">"@,
        EventView::Empty(t) => "<"@ + t.name + attrs_xml(t.attrs, t.attrs.len()) + "/>"@,
        EventView::End(n) => "</"@ + n + ">"@,
        EventView::Text(Some(t)) => t,
        EventView::Reference(_, n) => "&"@ + n + ";"@,
        _ => Seq::empty(),
    }
}

pub open spec fn events_xml(evs: Seq<EventView>, n: nat) -> Seq<char>
    decreases n,
{
    if n == 0 || n > evs.len() {
        Seq::empty()
    } else {
        events_xml(evs, (n - 1) as nat) + event_xml(evs[n - 1])
    }
}

/// A document: the XML declaration and what events are written as.
pub open spec fn document_xml(evs: Seq<EventView>) -> Seq<char> {
    "<?xml version=\"1.0\" encoding=\"UTF-8\" standalone=\"yes\"?>"@ + events_xml(evs, evs.len())
}

/// Whether a tag has the name and the attributes, as written, of another.
pub open spec fn is_written_as(t: TagView, w: TagView) -> bool {
    &&& t.name == w.name
    &&& t.attrs.len() == w.attrs.len()
    &&& forall|i: int|
        0 <= i < t.attrs.len() ==> (#[trigger] t.attrs[i]).key == w.attrs[i].key && t.attrs[i].raw
            == w.attrs[i].raw
}

/// Bytes with an empty element in the middle.
pub open spec fn around_tag(pre: Seq<u8>, t: TagView, post: Seq<u8>) -> Seq<u8> {
    pre + encode_utf8(event_xml(EventView::Empty(t))) + post
}

/// Whether events begin with others and then have an empty element.
pub open spec fn go_on_with(evs: Seq<EventView>, before: Seq<EventView>, t: TagView) -> bool {
    &&& evs.len() > before.len()
    &&& evs.take(before.len() as int) == before
    &&& evs[before.len() as int] matches EventView::Empty(e) && is_written_as(e, t)
}

/// Whether bytes, where they are a plain document, are read as the events they were written
/// from, behind the declaration; and whether, where bytes that are read without a fault have
/// an empty element behind them, it is read next.
pub open spec fn reads_back(xml: Seq<u8>, check_ends: bool) -> bool {
    &&& forall|evs: Seq<EventView>|
        is_plain_document(evs) && xml == encode_utf8(#[trigger] document_xml(evs)) ==> xml_items(
            xml,
            check_ends,
        ) == seq![EventView::Other] + evs
    &&& forall|pre: Seq<u8>, t: TagView, post: Seq<u8>|
        is_plain_tag(t) && is_whole(pre, check_ends) && xml == #[trigger] around_tag(pre, t, post)
            ==> go_on_with(xml_items(xml, check_ends), xml_items(pre, check_ends), t)
}

/// What an XML text is read as: its events, in order, up to its end or its first fault, and
/// whether it is read to the end. `check_ends` says whether an end tag that does not match
/// its start tag is a fault.
pub uninterp spec fn xml_reading(xml: Seq<u8>, check_ends: bool) -> (Seq<EventView>, bool);

/// The events of an XML text, in order, up to its end or its first fault.
pub open spec fn xml_items(xml: Seq<u8>, check_ends: bool) -> Seq<EventView> {
    xml_reading(xml, check_ends).0
}

/// Whether an XML text is read to its end without a fault.
pub open spec fn is_whole(xml: Seq<u8>, check_ends: bool) -> bool {
    xml_reading(xml, check_ends).1
}

/// The events that a parser has yet to hand out, and whether it will come to the end of the
/// text.
pub uninterp spec fn pending(r: quick_xml::Reader<&[u8]>) -> (Seq<EventView>, bool);

/// `quick_xml::Reader::from_reader`, with its `check_end_names` setting: a parser
/// that has all the events of `xml` before it. Where `xml` is a plain document, these are the
/// declaration and the events that it was written from. Where `xml` begins with bytes that
/// are read without a fault by themselves, and a plain empty element follows, they are the
/// events of those bytes, then that element, and whatever comes behind it: the parser looks
/// no further ahead than to the next `<`.
#[verifier::external_body]
fn open_xml<'a>(xml: &'a [u8], check_ends: bool) -> (r: quick_xml::Reader<&'a [u8]>)
    ensures
        pending(r) == xml_reading(xml@, check_ends),
        forall|evs: Seq<EventView>|
            is_plain_document(evs) && xml@ == encode_utf8(#[trigger] document_xml(evs)) ==> pending(
                r,
            ).0 == seq![EventView::Other] + evs,
        forall|pre: Seq<u8>, t: TagView, post: Seq<u8>|
            is_plain_tag(t) && is_whole(pre, check_ends) && xml@ == #[trigger] around_tag(
                pre,
                t,
                post,
            ) ==> go_on_with(pending(r).0, xml_items(pre, check_ends), t),
{
    let mut reader = quick_xml::Reader::from_reader(xml);
    reader.config_mut().check_end_names = check_ends;
    reader
}

/// `quick_xml::events::BytesStart`'s `name` and `attributes`, for [`next_event`]
/// alone; an attribute that is not well-formed is passed over. Nothing is claimed
/// of the result: what the tags of a text hold is part of [`xml_items`].
#[verifier::external_body]
fn tag_of(t: &quick_xml::events::BytesStart<'_>) -> (r: Tag) {
    let name = String::from_utf8_lossy(t.name().as_ref()).into_owned();
    let attrs = t.attributes().flatten().map(|a| Attr {
        key: String::from_utf8_lossy(a.key.as_ref()).into_owned(),
        raw: String::from_utf8_lossy(&a.value).into_owned(),
        value: a.normalized_value(quick_xml::XmlVersion::Implicit1_0).ok().map(Into::into),
    }).collect();
    Tag { name, attrs }
}

/// `quick_xml::Reader::read_event`: the next event, nothing at the end, and a fault where
/// there is one.
#[verifier::external_body]
fn next_event(r: &mut quick_xml::Reader<&[u8]>) -> (e: Result<Option<XmlEvent>, ()>)
    ensures
        match e {
            Ok(Some(ev)) => pending(*old(r)).0 == seq![ev.deep_view()] + pending(*final(r)).0
                && pending(*old(r)).1 == pending(*final(r)).1,
            Ok(None) => pending(*old(r)).0.len() == 0 && pending(*old(r)).1,
            Err(_) => pending(*old(r)).0.len() == 0 && !pending(*old(r)).1,
        },
{
    Ok(match r.read_event().map_err(|_| ())? {
        Event::Start(t) => Some(XmlEvent::Start(tag_of(&t))),
        Event::Empty(t) => Some(XmlEvent::Empty(tag_of(&t))),
        Event::End(t) => Some(XmlEvent::End(String::from_utf8_lossy(t.name().as_ref()).into_owned())),
        Event::Text(t) => Some(XmlEvent::Text(t.xml10_content().ok().map(Into::into))),
        Event::GeneralRef(t) => Some(XmlEvent::Reference(t.resolve_char_ref().ok().flatten(), String::from_utf8_lossy(&t).into_owned())),
        Event::Eof => None,
        _ => Some(XmlEvent::Other),
    })
}

/// What an XML text is read as: its events, and whether it is read to the end.
pub fn read_xml(xml: &[u8], check_ends: bool) -> (r: (Vec<XmlEvent>, bool))
    ensures
        (r.0.deep_view(), r.1) == xml_reading(xml@, check_ends),
        reads_back(xml@, check_ends),
{
    let mut out: Vec<XmlEvent> = Vec::new();
    let mut whole = false;
    let mut reader = open_xml(xml, check_ends);
    let ghost all = xml_reading(xml@, check_ends);
    assert(out.deep_view() + pending(reader).0 =~= all.0);
    loop
        invariant_except_break
            out.deep_view() + pending(reader).0 == all.0,
            pending(reader).1 == all.1,
        ensures
            out.deep_view() == all.0,
            whole == all.1,
        decreases pending(reader).0.len(),
    {
        match next_event(&mut reader) {
            Ok(Some(ev)) => {
                let ghost before = out.deep_view();
                let ghost rest = pending(reader).0;
                push_deep(&mut out, ev);
                assert(out.deep_view() + rest =~= before + (seq![ev.deep_view()] + rest));
            },
            Ok(None) => {
                whole = true;
                assert(out.deep_view() =~= all.0);
                break;
            },
            Err(_) => {
                whole = false;
                assert(out.deep_view() =~= all.0);
                break;
            },
        }
    }
    (out, whole)
}

/// The events of an XML text.
pub fn xml_events(xml: &[u8], check_ends: bool) -> (r: Vec<XmlEvent>)
    ensures
        r.deep_view() == xml_items(xml@, check_ends),
        reads_back(xml@, check_ends),
{
    read_xml(xml, check_ends).0
}

// ── tags and references ─────────────────────────────────────────────────────

/// The position of the first attribute with a key, from position `i` on.
pub open spec fn attr_pos(a: Seq<AttrView>, key: Seq<char>, i: int) -> int
    decreases a.len() - i,
{
    if 0 <= i < a.len() && a[i].key != key {
        attr_pos(a, key, i + 1)
    } else {
        i
    }
}

/// The value, as written, of the first attribute with a key.
pub open spec fn raw_attr(t: TagView, key: Seq<char>) -> Option<Seq<char>> {
    let p = attr_pos(t.attrs, key, 0);
    if p < t.attrs.len() {
        Some(t.attrs[p].raw)
    } else {
        None
    }
}

/// The resolved value of the first attribute with a key.
pub open spec fn resolved_attr(t: TagView, key: Seq<char>) -> Option<Seq<char>> {
    let p = attr_pos(t.attrs, key, 0);
    if p < t.attrs.len() {
        t.attrs[p].value
    } else {
        None
    }
}

fn find_attr(t: &Tag, key: &str) -> (r: usize)
    ensures
        r == attr_pos(t.deep_view().attrs, key@, 0),
        r <= t.attrs@.len(),
{
    let mut i: usize = 0;
    while i < t.attrs.len()
        invariant
            i <= t.attrs@.len(),
            attr_pos(t.deep_view().attrs, key@, 0) == attr_pos(t.deep_view().attrs, key@, i as int),
        decreases t.attrs@.len() - i,
    {
        assert(t.deep_view().attrs[i as int] == t.attrs@[i as int].deep_view());
        if same(t.attrs[i].key.as_str(), key) {
            return i;
        }
        i = i + 1;
    }
    i
}

/// The value, as written, of an attribute.
pub fn attr<'a>(t: &'a Tag, key: &str) -> (r: Option<&'a str>)
    ensures
        match r {
            Some(s) => raw_attr(t.deep_view(), key@) == Some(s@),
            None => raw_attr(t.deep_view(), key@) is None,
        },
{
    let p = find_attr(t, key);
    if p < t.attrs.len() {
        assert(t.deep_view().attrs[p as int] == t.attrs@[p as int].deep_view());
        Some(t.attrs[p].raw.as_str())
    } else {
        None
    }
}

/// The resolved value of an attribute.
pub fn attr_resolved(t: &Tag, key: &str) -> (r: Option<String>)
    ensures
        opt_text(r) == resolved_attr(t.deep_view(), key@),
{
    let p = find_attr(t, key);
    if p < t.attrs.len() {
        assert(t.deep_view().attrs[p as int] == t.attrs@[p as int].deep_view());
        match &t.attrs[p].value {
            Some(s) => Some(s.clone()),
            None => None,
        }
    } else {
        None
    }
}

/// The character that a reference stands for: that of a numeric reference, or one
/// of the five predefined entities.
pub open spec fn ref_char(num: Option<char>, name: Seq<char>) -> Option<char> {
    if num is Some {
        num
    } else if name == "amp"@ {
        Some('&')
    } else if name == "lt"@ {
        Some('<')
    } else if name == "gt"@ {
        Some('>')
    } else if name == "quot"@ {
        Some('"')
    } else if name == "apos"@ {
        Some('\'')
    } else {
        None
    }
}

pub fn xml_ref_char(num: Option<char>, name: &str) -> (r: Option<char>)
    ensures
        r == ref_char(num, name@),
{
    if num.is_some() {
        num
    } else if same(name, "amp") {
        Some('&')
    } else if same(name, "lt") {
        Some('<')
    } else if same(name, "gt") {
        Some('>')
    } else if same(name, "quot") {
        Some('"')
    } else if same(name, "apos") {
        Some('\'')
    } else {
        None
    }
}

/// The characters that an event adds to the text around it.
pub open spec fn event_text(ev: EventView) -> Seq<char> {
    match ev {
        EventView::Text(Some(t)) => t,
        EventView::Reference(num, name) => match ref_char(num, name) {
            Some(c) => seq![c],
            None => Seq::empty(),
        },
        _ => Seq::empty(),
    }
}

/// The text that an event stands for: character data as it is, and the character that a
/// reference names, by its number or as one of the five that XML knows.
pub open spec fn said_by(ev: EventView) -> Seq<char> {
    match ev {
        EventView::Text(Some(t)) => t,
        EventView::Reference(Some(c), _) => seq![c],
        EventView::Reference(None, n) => if n == "lt"@ {
            seq!['<']
        } else if n == "gt"@ {
            seq!['>']
        } else if n == "amp"@ {
            seq!['&']
        } else if n == "apos"@ {
            seq!['\'']
        } else if n == "quot"@ {
            seq!['"']
        } else {
            Seq::empty()
        },
        _ => Seq::empty(),
    }
}

/// The text that events stand for.
pub open spec fn said(evs: Seq<EventView>) -> Seq<char>
    decreases evs.len(),
{
    if evs.len() == 0 {
        Seq::empty()
    } else {
        said(evs.drop_last()) + said_by(evs.last())
    }
}

/// Character data and references are read as the text that they stand for.
pub proof fn events_say_their_text(ev: EventView)
    ensures
        event_text(ev) == said_by(ev),
{
    reveal_strlit("lt");
    reveal_strlit("gt");
    reveal_strlit("amp");
    reveal_strlit("apos");
    reveal_strlit("quot");
    assert("lt"@[0] == 'l' && "gt"@[0] == 'g');
    assert("amp"@.len() == 3 && "apos"@.len() == 4 && "quot"@.len() == 4);
    assert("apos"@[0] == 'a' && "quot"@[0] == 'q');
}

/// Appends the characters that an event adds.
pub fn push_event_text(out: &mut String, ev: &XmlEvent)
    ensures
        final(out)@ == old(out)@ + event_text(ev.deep_view()),
{
    match ev {
        XmlEvent::Text(Some(t)) => {
            out.push_str(t.as_str());
        },
        XmlEvent::Reference(num, name) => {
            match xml_ref_char(*num, name.as_str()) {
                Some(c) => {
                    out.push(c);
                },
                None => {},
            }
        },
        _ => {},
    }
    assert(out@ =~= old(out)@ + event_text(ev.deep_view()));
}

// ── relationship parts ──────────────────────────────────────────────────────

/// The tag of an event that opens an element, self-closed or not.
pub open spec fn opened(ev: EventView) -> Option<TagView> {
    match ev {
        EventView::Start(t) => Some(t),
        EventView::Empty(t) => Some(t),
        _ => None,
    }
}

pub open spec fn ends_with(s: Seq<char>, t: Seq<char>) -> bool {
    t.len() <= s.len() && s.subrange(s.len() - t.len(), s.len() as int) == t
}

pub open spec fn starts_with(s: Seq<char>, t: Seq<char>) -> bool {
    t.len() <= s.len() && s.subrange(0, t.len() as int) == t
}

/// Whether an event is a relationship whose type ends in `suffix`.
pub open spec fn is_relationship(ev: EventView, suffix: Seq<char>) -> bool {
    match opened(ev) {
        Some(t) => t.name == "Relationship"@ && match raw_attr(t, "Type"@) {
            Some(ty) => ends_with(ty, suffix),
            None => false,
        },
        None => false,
    }
}

/// The target of the first relationship, from event `i` on, whose type ends in `suffix`.
pub open spec fn relationship_target(evs: Seq<EventView>, suffix: Seq<char>, i: int) -> Option<
    Seq<char>,
>
    decreases evs.len() - i,
{
    if 0 <= i < evs.len() {
        if is_relationship(evs[i], suffix) {
            raw_attr(opened(evs[i])->0, "Target"@)
        } else {
            relationship_target(evs, suffix, i + 1)
        }
    } else {
        None
    }
}

/// Whether `s` ends in `t`.
pub fn text_ends_with(s: &str, t: &str) -> (r: bool)
    ensures
        r == ends_with(s@, t@),
{
    let a = crate::text::chars_of(s);
    let b = crate::text::chars_of(t);
    if b.len() > a.len() {
        return false;
    }
    let off: usize = a.len() - b.len();
    let ghost tail = a@.subrange(off as int, a@.len() as int);
    let mut i: usize = 0;
    while i < b.len()
        invariant
            i <= b@.len(),
            off + b@.len() == a@.len(),
            a.len() == a@.len(),
            tail == a@.subrange(off as int, a@.len() as int),
            a@ == s@,
            b@ == t@,
            forall|k: int| 0 <= k < i ==> tail[k] == b@[k],
        decreases b@.len() - i,
    {
        assert(tail[i as int] == a@[off + i]);
        if a[off + i] != b[i] {
            return false;
        }
        i = i + 1;
    }
    assert(tail =~= b@);
    true
}

/// Whether `s` begins with `t`.
pub fn text_starts_with(s: &str, t: &str) -> (r: bool)
    ensures
        r == starts_with(s@, t@),
{
    let a = crate::text::chars_of(s);
    let b = crate::text::chars_of(t);
    if b.len() > a.len() {
        return false;
    }
    let ghost head = a@.subrange(0, b@.len() as int);
    let mut i: usize = 0;
    while i < b.len()
        invariant
            i <= b@.len() <= a@.len(),
            head == a@.subrange(0, b@.len() as int),
            a@ == s@,
            b@ == t@,
            forall|k: int| 0 <= k < i ==> head[k] == b@[k],
        decreases b@.len() - i,
    {
        assert(head[i as int] == a@[i as int]);
        if a[i] != b[i] {
            return false;
        }
        i = i + 1;
    }
    assert(head =~= b@);
    true
}

fn opened_tag(ev: &XmlEvent) -> (r: Option<&Tag>)
    ensures
        match r {
            Some(t) => opened(ev.deep_view()) == Some(t.deep_view()),
            None => opened(ev.deep_view()) is None,
        },
{
    match ev {
        XmlEvent::Start(t) => Some(t),
        XmlEvent::Empty(t) => Some(t),
        _ => None,
    }
}

/// Whether an event is a relationship whose type ends in `suffix`.
pub fn is_relationship_to(ev: &XmlEvent, suffix: &str) -> (r: bool)
    ensures
        r == is_relationship(ev.deep_view(), suffix@),
{
    match opened_tag(ev) {
        Some(t) => same(t.name.as_str(), "Relationship") && match attr(t, "Type") {
            Some(ty) => text_ends_with(ty, suffix),
            None => false,
        },
        None => false,
    }
}

/// The target of the first relationship whose type ends in `suffix`.
pub fn first_relationship_target(evs: &Vec<XmlEvent>, suffix: &str) -> (r: Option<String>)
    ensures
        opt_text(r) == relationship_target(evs.deep_view(), suffix@, 0),
{
    let mut i: usize = 0;
    while i < evs.len()
        invariant
            i <= evs@.len(),
            relationship_target(evs.deep_view(), suffix@, 0) == relationship_target(
                evs.deep_view(),
                suffix@,
                i as int,
            ),
        decreases evs@.len() - i,
    {
        assert(evs.deep_view()[i as int] == evs@[i as int].deep_view());
        if is_relationship_to(&evs[i], suffix) {
            return match opened_tag(&evs[i]) {
                Some(t) => match attr(t, "Target") {
                    Some(s) => Some(copy_text(s)),
                    None => None,
                },
                None => None,
            };
        }
        i = i + 1;
    }
    None
}

/// In a relationship part, the target of the first relationship whose type ends
/// in `type_suffix`, such as `notesSlide` or `hyperlink`.
pub fn rels_relationship_target(rels_xml: &[u8], type_suffix: &str) -> (r: Option<String>)
    ensures
        opt_text(r) == relationship_target(xml_items(rels_xml@, true), type_suffix@, 0),
        reads_back(rels_xml@, true),
{
    let evs = xml_events(rels_xml, true);
    first_relationship_target(&evs, type_suffix)
}

/// The last attribute, among the first `n`, with a key.
pub open spec fn last_attr(a: Seq<AttrView>, key: Seq<char>, n: nat) -> Option<AttrView>
    decreases n,
{
    if n == 0 || n > a.len() {
        None
    } else if a[n - 1].key == key {
        Some(a[n - 1])
    } else {
        last_attr(a, key, (n - 1) as nat)
    }
}

/// The id and the resolved target that a relationship event gives.
pub open spec fn relationship_pair(ev: EventView) -> Option<(Seq<char>, Seq<char>)> {
    match opened(ev) {
        Some(t) => if t.name == "Relationship"@ {
            match (
                last_attr(t.attrs, "Id"@, t.attrs.len()),
                last_attr(t.attrs, "Target"@, t.attrs.len()),
            ) {
                (Some(id), Some(tg)) => match tg.value {
                    Some(v) => Some((id.raw, v)),
                    None => None,
                },
                _ => None,
            }
        } else {
            None
        },
        None => None,
    }
}

/// The pairs that the first `n` events give, in order.
pub open spec fn relationship_pairs(evs: Seq<EventView>, n: nat) -> Seq<(Seq<char>, Seq<char>)>
    decreases n,
{
    if n == 0 || n > evs.len() {
        Seq::empty()
    } else {
        let before = relationship_pairs(evs, (n - 1) as nat);
        match relationship_pair(evs[n - 1]) {
            Some(p) => before.push(p),
            None => before,
        }
    }
}

/// What the last pair with a key, among the first `n`, holds.
pub open spec fn last_pair(m: Seq<(Seq<char>, Seq<char>)>, key: Seq<char>, n: nat) -> Option<
    Seq<char>,
>
    decreases n,
{
    if n == 0 || n > m.len() {
        None
    } else if m[n - 1].0 == key {
        Some(m[n - 1].1)
    } else {
        last_pair(m, key, (n - 1) as nat)
    }
}

fn find_last_attr(t: &Tag, key: &str) -> (r: Option<usize>)
    ensures
        match r {
            Some(p) => p < t.attrs@.len() && last_attr(
                t.deep_view().attrs,
                key@,
                t.attrs@.len(),
            ) == Some(t.attrs@[p as int].deep_view()),
            None => last_attr(t.deep_view().attrs, key@, t.attrs@.len()) is None,
        },
{
    let mut n: usize = t.attrs.len();
    while n > 0
        invariant
            n <= t.attrs@.len(),
            last_attr(t.deep_view().attrs, key@, t.attrs@.len()) == last_attr(
                t.deep_view().attrs,
                key@,
                n as nat,
            ),
        decreases n,
    {
        assert(t.deep_view().attrs[n - 1] == t.attrs@[n - 1].deep_view());
        if same(t.attrs[n - 1].key.as_str(), key) {
            return Some(n - 1);
        }
        n = n - 1;
    }
    None
}

/// The id and target pairs of the relationships among events; where an id comes
/// twice, the later pair is the one that counts.
pub fn id_target_pairs(evs: &Vec<XmlEvent>) -> (r: Vec<(String, String)>)
    ensures
        r.deep_view() == relationship_pairs(evs.deep_view(), evs@.len()),
{
    let mut out: Vec<(String, String)> = Vec::new();
    let mut i: usize = 0;
    assert(out.deep_view() =~= Seq::<(Seq<char>, Seq<char>)>::empty());
    while i < evs.len()
        invariant
            i <= evs@.len(),
            out.deep_view() == relationship_pairs(evs.deep_view(), i as nat),
        decreases evs@.len() - i,
    {
        assert(evs.deep_view()[i as int] == evs@[i as int].deep_view());
        match opened_tag(&evs[i]) {
            Some(t) => {
                if same(t.name.as_str(), "Relationship") {
                    match (find_last_attr(t, "Id"), find_last_attr(t, "Target")) {
                        (Some(a), Some(b)) => match &t.attrs[b].value {
                            Some(v) => {
                                push_deep(&mut out, (t.attrs[a].raw.clone(), v.clone()));
                                assert(out.deep_view().last() == (
                                    t.attrs@[a as int].raw@,
                                    v@,
                                ));
                            },
                            None => {},
                        },
                        _ => {},
                    }
                }
            },
            None => {},
        }
        i = i + 1;
    }
    out
}

/// Every relationship of a relationship part: its id and its resolved target.
pub fn rels_id_target_map(rels_xml: &[u8]) -> (r: Vec<(String, String)>)
    ensures
        r.deep_view() == relationship_pairs(
            xml_items(rels_xml@, true),
            xml_items(rels_xml@, true).len(),
        ),
{
    let evs = xml_events(rels_xml, true);
    id_target_pairs(&evs)
}

/// The target that the pairs give an id.
pub fn lookup_pair(m: &Vec<(String, String)>, key: &str) -> (r: Option<String>)
    ensures
        opt_text(r) == last_pair(m.deep_view(), key@, m@.len()),
{
    let mut n: usize = m.len();
    while n > 0
        invariant
            n <= m@.len(),
            last_pair(m.deep_view(), key@, m@.len()) == last_pair(m.deep_view(), key@, n as nat),
        decreases n,
    {
        assert(m.deep_view()[n - 1] == (m@[n - 1].0@, m@[n - 1].1@));
        if same(m[n - 1].0.as_str(), key) {
            return Some(m[n - 1].1.clone());
        }
        n = n - 1;
    }
    None
}

// ── writing events ──────────────────────────────────────────────────────────

fn push_tag(out: &mut String, t: &Tag)
    ensures
        final(out)@ == old(out)@ + t.name@ + attrs_xml(
            t.attrs.deep_view(),
            t.attrs.deep_view().len(),
        ),
{
    let ghost av = t.attrs.deep_view();
    out.push_str(t.name.as_str());
    let ghost before = out@;
    let mut attrs = String::new();
    let mut i: usize = 0;
    while i < t.attrs.len()
        invariant
            i <= t.attrs@.len(),
            av == t.attrs.deep_view(),
            av.len() == t.attrs@.len(),
            attrs@ == attrs_xml(av, i as nat),
        decreases t.attrs@.len() - i,
    {
        assert(av[i as int] == t.attrs@[i as int].deep_view());
        attrs.push_str(" ");
        attrs.push_str(t.attrs[i].key.as_str());
        attrs.push_str("=\"");
        attrs.push_str(t.attrs[i].raw.as_str());
        attrs.push_str("\"");
        i = i + 1;
    }
    out.push_str(attrs.as_str());
}

fn push_event(out: &mut String, ev: &XmlEvent)
    ensures
        final(out)@ == old(out)@ + event_xml(ev.deep_view()),
{
    let ghost was = out@;
    match ev {
        XmlEvent::Start(t) => {
            out.push_str("<");
            push_tag(out, t);
            out.push_str(">");
        },
        XmlEvent::Empty(t) => {
            out.push_str("<");
            push_tag(out, t);
            out.push_str("/>");
        },
        XmlEvent::End(n) => {
            out.push_str("</");
            out.push_str(n.as_str());
            out.push_str(">");
        },
        XmlEvent::Text(Some(t)) => {
            out.push_str(t.as_str());
        },
        XmlEvent::Reference(_, n) => {
            out.push_str("&");
            out.push_str(n.as_str());
            out.push_str(";");
        },
        _ => {},
    }
    assert(out@ =~= was + event_xml(ev.deep_view()));
}

/// Writes a document.
pub fn write_document(evs: &Vec<XmlEvent>) -> (r: String)
    ensures
        r@ == document_xml(evs.deep_view()),
{
    let ghost ev = evs.deep_view();
    let mut out = String::new();
    let mut i: usize = 0;
    while i < evs.len()
        invariant
            i <= evs@.len(),
            ev == evs.deep_view(),
            ev.len() == evs@.len(),
            out@ == events_xml(ev, i as nat),
        decreases evs@.len() - i,
    {
        assert(ev[i as int] == evs@[i as int].deep_view());
        push_event(&mut out, &evs[i]);
        i = i + 1;
    }
    concat2("<?xml version=\"1.0\" encoding=\"UTF-8\" standalone=\"yes\"?>", out.as_str())
}

// ── paragraphs ──────────────────────────────────────────────────────────────

/// What has been read of the paragraphs: those that are complete, the depth of
/// paragraph elements, and the text of the open one.
#[verifier::ext_equal]
pub struct ParasView {
    pub out: Seq<Seq<char>>,
    pub depth: int,
    pub cur: Seq<char>,
}

pub open spec fn paras_step(st: ParasView, ev: EventView, tags: Seq<Seq<char>>) -> ParasView {
    match ev {
        EventView::Start(t) => if tags.contains(t.name) {
            ParasView { depth: st.depth + 1, ..st }
        } else {
            st
        },
        EventView::End(n) => if tags.contains(n) {
            if st.depth == 1 {
                ParasView { out: st.out.push(st.cur), depth: 0, cur: Seq::empty() }
            } else {
                ParasView { depth: st.depth - 1, ..st }
            }
        } else {
            st
        },
        _ => if st.depth > 0 {
            ParasView { cur: st.cur + event_text(ev), ..st }
        } else {
            st
        },
    }
}

/// The state after the first `n` events.
pub open spec fn paras_run(evs: Seq<EventView>, tags: Seq<Seq<char>>, n: nat) -> ParasView
    decreases n,
{
    if n == 0 || n > evs.len() {
        ParasView { out: Seq::empty(), depth: 0, cur: Seq::empty() }
    } else {
        paras_step(paras_run(evs, tags, (n - 1) as nat), evs[n - 1], tags)
    }
}

/// The text of each outermost paragraph element, with the text of everything
/// inside it.
pub open spec fn paragraphs(evs: Seq<EventView>, tags: Seq<Seq<char>>) -> Seq<Seq<char>> {
    paras_run(evs, tags, evs.len()).out
}

/// Whether a text is one of several.
pub fn one_of(tags: &Vec<String>, name: &str) -> (r: bool)
    ensures
        r == tags.deep_view().contains(name@),
{
    let mut i: usize = 0;
    while i < tags.len()
        invariant
            i <= tags@.len(),
            forall|k: int| 0 <= k < i ==> tags.deep_view()[k] != name@,
        decreases tags@.len() - i,
    {
        assert(tags.deep_view()[i as int] == tags@[i as int]@);
        if same(tags[i].as_str(), name) {
            return true;
        }
        i = i + 1;
    }
    false
}

/// The text of each paragraph among events.
pub fn collect_paragraphs(evs: &Vec<XmlEvent>, tags: &Vec<String>) -> (r: Vec<String>)
    ensures
        r.deep_view() == paragraphs(evs.deep_view(), tags.deep_view()),
{
    let mut out: Vec<String> = Vec::new();
    let mut depth: i128 = 0;
    let mut cur = String::new();
    let mut i: usize = 0;
    assert(out.deep_view() =~= Seq::<Seq<char>>::empty());
    while i < evs.len()
        invariant
            i <= evs@.len(),
            -(i as int) <= depth <= i,
            (ParasView { out: out.deep_view(), depth: depth as int, cur: cur@ }) == paras_run(
                evs.deep_view(),
                tags.deep_view(),
                i as nat,
            ),
        decreases evs@.len() - i,
    {
        assert(evs.deep_view()[i as int] == evs@[i as int].deep_view());
        match &evs[i] {
            XmlEvent::Start(t) => {
                if one_of(tags, t.name.as_str()) {
                    depth = depth + 1;
                }
            },
            XmlEvent::End(n) => {
                if one_of(tags, n.as_str()) {
                    depth = depth - 1;
                    if depth == 0 {
                        push_deep(&mut out, cur);
                        cur = String::new();
                    }
                }
            },
            ev => {
                if depth > 0 {
                    push_event_text(&mut cur, ev);
                }
            },
        }
        i = i + 1;
    }
    out
}

/// The text of each paragraph of an XML part. `para_tags` are the qualified names
/// of the elements that make a paragraph, such as `w:p`, `text:p` or `a:p`.
pub fn extract_paragraphs(xml: &[u8], para_tags: &Vec<String>) -> (r: Vec<String>)
    ensures
        r.deep_view() == paragraphs(xml_items(xml@, true), para_tags.deep_view()),
        reads_back(xml@, true),
{
    let evs = xml_events(xml, true);
    collect_paragraphs(&evs, para_tags)
}

} // verus!
