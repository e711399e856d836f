//! Document properties: title, author, dates and the like, read from and written to
//! OOXML and OpenDocument archives, and mapped to and from PDF information.

use crate::blocks::{digits_among, keep_digits};
use crate::container::{
    all_items, as_items, bytes_of_text, has_name, holds_parts, is_replaced, items_have, lossy_text,
    may_refuse, parts_view, push_part, read_zip_entry, replace_parts, replaced_parts, text_of_bytes,
    zip_entry, zip_items, Part, PartView, ZipItemView,
};
use crate::deep::push_deep;
use crate::formats::{escaped, xml_escape};
use crate::records::{set_member, with_member};
use crate::text::{
    char_is_digit, chars_of, concat2, concat3, contains_text, copy_text, find_back, find_from,
    find_text, has_text, is_digit, matches_at, push_chars, rfind_text, same, slice_text,
};
use crate::value::{field, num_text, number_text, object, Json, Value};
use crate::xml::{
    event_text, events_say_their_text, opt_text, push_event_text, said, said_by, xml_events,
    xml_items, EventView, TagView, XmlEvent,
};
use vstd::prelude::*;
use vstd::utf8::encode_utf8;

verus! {

// ── formats and names ───────────────────────────────────────────────────────

/// Whether a file is an OOXML archive.
pub open spec fn ooxml_ext(ext: Seq<char>) -> bool {
    ext == "xlsx"@ || ext == "xlsm"@ || ext == "docx"@ || ext == "docm"@ || ext == "pptx"@ || ext
        == "pptm"@
}

pub fn is_ooxml(ext: &str) -> (r: bool)
    ensures
        r == ooxml_ext(ext@),
{
    same(ext, "xlsx") || same(ext, "xlsm") || same(ext, "docx") || same(ext, "docm") || same(
        ext,
        "pptx",
    ) || same(ext, "pptm")
}

/// Whether a file is an OpenDocument archive.
pub open spec fn odf_ext(ext: Seq<char>) -> bool {
    ext == "ods"@ || ext == "odt"@ || ext == "odp"@ || ext == "odg"@ || ext == "ots"@ || ext
        == "ott"@ || ext == "otp"@
}

pub fn is_odf(ext: &str) -> (r: bool)
    ensures
        r == odf_ext(ext@),
{
    same(ext, "ods") || same(ext, "odt") || same(ext, "odp") || same(ext, "odg") || same(
        ext,
        "ots",
    ) || same(ext, "ott") || same(ext, "otp")
}

/// Properties and the names under which a format keeps them.
pub type Names = Seq<(Seq<char>, Seq<char>)>;

/// The elements of `docProps/core.xml`.
pub open spec fn ooxml_core() -> Names {
    seq![
        ("title"@, "dc:title"@),
        ("subject"@, "dc:subject"@),
        ("author"@, "dc:creator"@),
        ("keywords"@, "cp:keywords"@),
        ("description"@, "dc:description"@),
        ("category"@, "cp:category"@),
        ("last_modified_by"@, "cp:lastModifiedBy"@),
        ("created"@, "dcterms:created"@),
        ("modified"@, "dcterms:modified"@),
    ]
}

/// The elements of `docProps/app.xml`.
pub open spec fn ooxml_app() -> Names {
    seq![("app"@, "Application"@), ("company"@, "Company"@)]
}

/// The elements of an OpenDocument `meta.xml`.
pub open spec fn odf_meta() -> Names {
    seq![
        ("title"@, "dc:title"@),
        ("subject"@, "dc:subject"@),
        ("author"@, "dc:creator"@),
        ("keywords"@, "meta:keyword"@),
        ("description"@, "dc:description"@),
        ("app"@, "meta:generator"@),
        ("created"@, "meta:creation-date"@),
        ("modified"@, "dc:date"@),
    ]
}

/// The keys of a PDF information dictionary.
pub open spec fn pdf_info() -> Names {
    seq![
        ("title"@, "Title"@),
        ("author"@, "Author"@),
        ("subject"@, "Subject"@),
        ("keywords"@, "Keywords"@),
        ("app"@, "Creator"@),
        ("producer"@, "Producer"@),
        ("created"@, "CreationDate"@),
        ("modified"@, "ModDate"@),
    ]
}

fn add_name(v: &mut Vec<(String, String)>, a: &str, b: &str)
    ensures
        final(v).deep_view() == old(v).deep_view().push((a@, b@)),
{
    let item = (copy_text(a), copy_text(b));
    assert(item.deep_view() == (a@, b@));
    push_deep(v, item);
}

fn core_names() -> (r: Vec<(String, String)>)
    ensures
        r.deep_view() == ooxml_core(),
{
    let mut v: Vec<(String, String)> = Vec::new();
    add_name(&mut v, "title", "dc:title");
    add_name(&mut v, "subject", "dc:subject");
    add_name(&mut v, "author", "dc:creator");
    add_name(&mut v, "keywords", "cp:keywords");
    add_name(&mut v, "description", "dc:description");
    add_name(&mut v, "category", "cp:category");
    add_name(&mut v, "last_modified_by", "cp:lastModifiedBy");
    add_name(&mut v, "created", "dcterms:created");
    add_name(&mut v, "modified", "dcterms:modified");
    assert(v.deep_view() =~= ooxml_core());
    v
}

fn app_names() -> (r: Vec<(String, String)>)
    ensures
        r.deep_view() == ooxml_app(),
{
    let mut v: Vec<(String, String)> = Vec::new();
    add_name(&mut v, "app", "Application");
    add_name(&mut v, "company", "Company");
    assert(v.deep_view() =~= ooxml_app());
    v
}

fn odf_names() -> (r: Vec<(String, String)>)
    ensures
        r.deep_view() == odf_meta(),
{
    let mut v: Vec<(String, String)> = Vec::new();
    add_name(&mut v, "title", "dc:title");
    add_name(&mut v, "subject", "dc:subject");
    add_name(&mut v, "author", "dc:creator");
    add_name(&mut v, "keywords", "meta:keyword");
    add_name(&mut v, "description", "dc:description");
    add_name(&mut v, "app", "meta:generator");
    add_name(&mut v, "created", "meta:creation-date");
    add_name(&mut v, "modified", "dc:date");
    assert(v.deep_view() =~= odf_meta());
    v
}

fn info_names() -> (r: Vec<(String, String)>)
    ensures
        r.deep_view() == pdf_info(),
{
    let mut v: Vec<(String, String)> = Vec::new();
    add_name(&mut v, "title", "Title");
    add_name(&mut v, "author", "Author");
    add_name(&mut v, "subject", "Subject");
    add_name(&mut v, "keywords", "Keywords");
    add_name(&mut v, "app", "Creator");
    add_name(&mut v, "producer", "Producer");
    add_name(&mut v, "created", "CreationDate");
    add_name(&mut v, "modified", "ModDate");
    assert(v.deep_view() =~= pdf_info());
    v
}

// ── texts of elements ───────────────────────────────────────────────────────

/// Whether a table has an element of a name.
pub open spec fn is_listed_tag(table: Names, tag: Seq<char>) -> bool {
    exists|i: int| 0 <= i < table.len() && (#[trigger] table[i]).1 == tag
}

fn lists_tag(table: &Vec<(String, String)>, tag: &str) -> (r: bool)
    ensures
        r == is_listed_tag(table.deep_view(), tag@),
{
    let ghost tv = table.deep_view();
    let mut i: usize = 0;
    while i < table.len()
        invariant
            i <= table@.len(),
            tv == table.deep_view(),
            forall|k: int| 0 <= k < i ==> (#[trigger] tv[k]).1 != tag@,
        decreases table@.len() - i,
    {
        assert(tv[i as int] == (table@[i as int].0@, table@[i as int].1@));
        if same(table[i].1.as_str(), tag) {
            return true;
        }
        i = i + 1;
    }
    false
}

/// The first value under a key, from `i` on.
pub open spec fn first_value(m: Names, key: Seq<char>, i: int) -> Option<Seq<char>>
    decreases m.len() - i,
{
    if i < 0 || i >= m.len() {
        None
    } else if m[i].0 == key {
        Some(m[i].1)
    } else {
        first_value(m, key, i + 1)
    }
}

fn find_value(m: &Vec<(String, String)>, key: &str) -> (r: Option<String>)
    ensures
        opt_text(r) == first_value(m.deep_view(), key@, 0),
{
    let ghost mv = m.deep_view();
    let mut i: usize = 0;
    assert(mv.len() == m@.len());
    while i < m.len()
        invariant
            i <= m@.len(),
            mv == m.deep_view(),
            mv.len() == m@.len(),
            first_value(mv, key@, 0) == first_value(mv, key@, i as int),
        decreases m@.len() - i,
    {
        assert(mv[i as int] == (m@[i as int].0@, m@[i as int].1@));
        if same(m[i].0.as_str(), key) {
            return Some(m[i].1.clone());
        }
        i = i + 1;
    }
    None
}

/// What has been collected of the texts of elements: the texts so far, the element that
/// is open, and its text.
#[verifier::ext_equal]
pub struct LeafView {
    pub out: Names,
    pub open: Option<Seq<char>>,
    pub text: Seq<char>,
}

/// What an event adds. An element inside an open one is passed over, but its text counts.
pub open spec fn leaf_step(st: LeafView, ev: EventView, table: Names) -> LeafView {
    match ev {
        EventView::Start(t) => if st.open is None && is_listed_tag(table, t.name) {
            LeafView { open: Some(t.name), text: Seq::empty(), ..st }
        } else {
            st
        },
        EventView::Text(_) | EventView::Reference(_, _) => if st.open is Some {
            LeafView { text: st.text + event_text(ev), ..st }
        } else {
            st
        },
        EventView::End(name) => if st.open == Some(name) {
            LeafView { out: st.out.push((name, st.text)), open: None, ..st }
        } else {
            st
        },
        _ => st,
    }
}

/// The texts of the listed elements among the first `n` events.
pub open spec fn leaf_run(events: Seq<EventView>, table: Names, n: nat) -> LeafView
    decreases n,
{
    if n == 0 || n > events.len() {
        LeafView { out: Seq::empty(), open: None, text: Seq::empty() }
    } else {
        leaf_step(leaf_run(events, table, (n - 1) as nat), events[n - 1], table)
    }
}

/// The texts of the listed elements, in the order of the text; the first of a name
/// counts.
pub open spec fn leaf_texts(events: Seq<EventView>, table: Names) -> Names {
    leaf_run(events, table, events.len()).out
}

/// The texts of the listed elements.
pub fn collect_leaf_texts(events: &Vec<XmlEvent>, table: &Vec<(String, String)>) -> (r: Vec<
    (String, String),
>)
    ensures
        r.deep_view() == leaf_texts(events.deep_view(), table.deep_view()),
{
    let ghost ev = events.deep_view();
    let ghost tv = table.deep_view();
    assert(ev.len() == events@.len());
    let mut out: Vec<(String, String)> = Vec::new();
    let mut open: Option<String> = None;
    let mut text = String::new();
    let mut i: usize = 0;
    assert(out.deep_view() =~= Seq::<(Seq<char>, Seq<char>)>::empty());
    assert(text@ =~= Seq::<char>::empty());
    while i < events.len()
        invariant
            i <= events@.len(),
            ev == events.deep_view(),
            ev.len() == events@.len(),
            tv == table.deep_view(),
            leaf_run(ev, tv, i as nat) == (LeafView {
                out: out.deep_view(),
                open: opt_text(open),
                text: text@,
            }),
        decreases events@.len() - i,
    {
        assert(ev[i as int] == events@[i as int].deep_view());
        match &events[i] {
            XmlEvent::Start(t) => {
                if open.is_none() && lists_tag(table, t.name.as_str()) {
                    open = Some(t.name.clone());
                    text = String::new();
                    assert(text@ =~= Seq::<char>::empty());
                }
            },
            XmlEvent::Text(_) => {
                if open.is_some() {
                    push_event_text(&mut text, &events[i]);
                }
            },
            XmlEvent::Reference(_, _) => {
                if open.is_some() {
                    push_event_text(&mut text, &events[i]);
                }
            },
            XmlEvent::End(name) => {
                let hit = match &open {
                    Some(c) => same(c.as_str(), name.as_str()),
                    None => false,
                };
                if hit {
                    let item = (name.clone(), text.clone());
                    assert(item.deep_view() == (name@, text@));
                    push_deep(&mut out, item);
                    open = None;
                }
            },
            _ => {},
        }
        i = i + 1;
    }
    out
}

/// The texts of the listed elements of an XML part.
pub fn xml_leaf_texts(xml: &[u8], table: &Vec<(String, String)>) -> (r: Vec<(String, String)>)
    ensures
        r.deep_view() == leaf_texts(xml_items(xml@, true), table.deep_view()),
{
    let events = xml_events(xml, true);
    collect_leaf_texts(&events, table)
}

// ── reading ─────────────────────────────────────────────────────────────────

/// An object with the properties of the first `n` names of a table for which there is a
/// text that is not empty.
pub open spec fn canonical(
    o: Seq<(Seq<char>, Json)>,
    found: Names,
    table: Names,
    n: nat,
) -> Seq<(Seq<char>, Json)>
    decreases n,
{
    if n == 0 || n > table.len() {
        o
    } else {
        let before = canonical(o, found, table, (n - 1) as nat);
        match first_value(found, table[n - 1].1, 0) {
            Some(v) => if v.len() > 0 {
                with_member(before, table[n - 1].0, Json::Text(v))
            } else {
                before
            },
            None => before,
        }
    }
}

/// Adds the properties that were found.
pub fn to_canonical(
    out: &mut Vec<(String, Value)>,
    found: &Vec<(String, String)>,
    table: &Vec<(String, String)>,
)
    ensures
        final(out).deep_view() == canonical(
            old(out).deep_view(),
            found.deep_view(),
            table.deep_view(),
            table@.len(),
        ),
{
    let ghost before = out.deep_view();
    let ghost tv = table.deep_view();
    let mut i: usize = 0;
    while i < table.len()
        invariant
            i <= table@.len(),
            tv == table.deep_view(),
            out.deep_view() == canonical(before, found.deep_view(), tv, i as nat),
        decreases table@.len() - i,
    {
        assert(tv[i as int] == (table@[i as int].0@, table@[i as int].1@));
        match find_value(found, table[i].1.as_str()) {
            Some(v) => {
                if chars_of(v.as_str()).len() > 0 {
                    set_member(out, table[i].0.as_str(), Value::Text(v));
                }
            },
            None => {},
        }
        i = i + 1;
    }
}

/// An object with the properties that a part of an archive holds; as it was where the
/// part cannot be read.
pub open spec fn with_part(
    o: Seq<(Seq<char>, Json)>,
    archive: Seq<u8>,
    part: Seq<char>,
    table: Names,
) -> Seq<(Seq<char>, Json)> {
    match zip_entry(archive, part) {
        Ok(xml) => canonical(o, leaf_texts(xml_items(xml, true), table), table, table.len()),
        Err(_) => o,
    }
}

fn add_part(
    out: &mut Vec<(String, Value)>,
    archive: &[u8],
    part: &str,
    table: &Vec<(String, String)>,
)
    ensures
        final(out).deep_view() == with_part(
            old(out).deep_view(),
            archive@,
            part@,
            table.deep_view(),
        ),
{
    match read_zip_entry(archive, part) {
        Ok(xml) => {
            let found = xml_leaf_texts(xml.as_slice(), table);
            assert(table.deep_view().len() == table@.len());
            to_canonical(out, &found, table);
        },
        Err(_) => {},
    }
}

/// The properties of an archive.
pub open spec fn archive_meta(archive: Seq<u8>, ext: Seq<char>) -> Result<Json, Seq<char>> {
    if ooxml_ext(ext) {
        Ok(
            Json::Object(
                with_part(
                    with_part(Seq::empty(), archive, "docProps/core.xml"@, ooxml_core()),
                    archive,
                    "docProps/app.xml"@,
                    ooxml_app(),
                ),
            ),
        )
    } else if odf_ext(ext) {
        Ok(Json::Object(with_part(Seq::empty(), archive, "meta.xml"@, odf_meta())))
    } else {
        Err("unsupported format for metadata: "@ + ext)
    }
}

/// The properties of an OOXML or OpenDocument archive.
pub fn op_meta_read(archive: &[u8], ext: &str) -> (r: Result<Value, String>)
    ensures
        match (r, archive_meta(archive@, ext@)) {
            (Ok(v), Ok(j)) => v.deep_view() == j,
            (Err(e), Err(m)) => e@ == m,
            _ => false,
        },
{
    let mut out: Vec<(String, Value)> = Vec::new();
    assert(out.deep_view() =~= Seq::<(Seq<char>, Json)>::empty());
    if is_ooxml(ext) {
        add_part(&mut out, archive, "docProps/core.xml", &core_names());
        add_part(&mut out, archive, "docProps/app.xml", &app_names());
        Ok(object(out))
    } else if is_odf(ext) {
        add_part(&mut out, archive, "meta.xml", &odf_names());
        Ok(object(out))
    } else {
        Err(concat2("unsupported format for metadata: ", ext))
    }
}

/// The properties that the entries of a PDF information dictionary give.
pub fn read_pdf_meta(info: &Vec<(String, String)>) -> (r: Value)
    ensures
        r.deep_view() == Json::Object(
            canonical(Seq::empty(), info.deep_view(), pdf_info(), pdf_info().len()),
        ),
{
    let mut out: Vec<(String, Value)> = Vec::new();
    assert(out.deep_view() =~= Seq::<(Seq<char>, Json)>::empty());
    let table = info_names();
    assert(table.deep_view().len() == table@.len());
    to_canonical(&mut out, info, &table);
    object(out)
}

// ── writing ─────────────────────────────────────────────────────────────────

/// The text of a property: that of a text or of a number.
pub open spec fn prop_text(props: Json, key: Seq<char>) -> Option<Seq<char>> {
    match field(props, key) {
        Some(Json::Text(s)) => Some(s),
        Some(Json::Number(n)) => Some(num_text(n)),
        _ => None,
    }
}

pub fn prop_str(props: &Value, key: &str) -> (r: Option<String>)
    ensures
        opt_text(r) == prop_text(props.deep_view(), key@),
{
    match props.get(key) {
        Some(Value::Text(s)) => Some(s.clone()),
        Some(Value::Number(n)) => Some(number_text(n)),
        _ => None,
    }
}

/// The properties to write: `props`, else `meta`, else none; they must be an object.
pub open spec fn wanted_props(opts: Json) -> Result<Json, Seq<char>> {
    let p = match field(opts, "props"@) {
        Some(p) => p,
        None => match field(opts, "meta"@) {
            Some(m) => m,
            None => Json::Object(Seq::empty()),
        },
    };
    if p is Object {
        Ok(p)
    } else {
        Err("props must be an object of metadata keys"@)
    }
}

pub fn read_props(opts: &Value) -> (r: Result<Value, String>)
    ensures
        match (r, wanted_props(opts.deep_view())) {
            (Ok(v), Ok(j)) => v.deep_view() == j,
            (Err(e), Err(m)) => e@ == m,
            _ => false,
        },
{
    let p = match opts.get("props") {
        Some(p) => p.dup(),
        None => match opts.get("meta") {
            Some(m) => m.dup(),
            None => {
                let none: Vec<(String, Value)> = Vec::new();
                assert(none.deep_view() =~= Seq::<(Seq<char>, Json)>::empty());
                object(none)
            },
        },
    };
    if p.is_object() {
        Ok(p)
    } else {
        Err(copy_text("props must be an object of metadata keys"))
    }
}

/// The properties among the first `n` of a table that are given.
pub open spec fn given_keys(table: Names, props: Json, n: nat) -> Seq<Seq<char>>
    decreases n,
{
    if n == 0 || n > table.len() {
        Seq::empty()
    } else {
        let before = given_keys(table, props, (n - 1) as nat);
        if prop_text(props, table[n - 1].0) is Some {
            before.push(table[n - 1].0)
        } else {
            before
        }
    }
}

fn keys_given(table: &Vec<(String, String)>, props: &Value) -> (r: Vec<String>)
    ensures
        r.deep_view() == given_keys(table.deep_view(), props.deep_view(), table@.len()),
{
    let ghost tv = table.deep_view();
    let mut out: Vec<String> = Vec::new();
    let mut i: usize = 0;
    assert(out.deep_view() =~= Seq::<Seq<char>>::empty());
    while i < table.len()
        invariant
            i <= table@.len(),
            tv == table.deep_view(),
            out.deep_view() == given_keys(tv, props.deep_view(), i as nat),
        decreases table@.len() - i,
    {
        assert(tv[i as int] == (table@[i as int].0@, table@[i as int].1@));
        if prop_str(props, table[i].0.as_str()).is_some() {
            push_deep(&mut out, table[i].0.clone());
        }
        i = i + 1;
    }
    out
}

/// The value of a property: the one given, else the one found under its element.
pub open spec fn merged_value(
    entry: (Seq<char>, Seq<char>),
    found: Names,
    props: Json,
) -> Option<Seq<char>> {
    match prop_text(props, entry.0) {
        Some(v) => Some(v),
        None => first_value(found, entry.1, 0),
    }
}

/// An element with a text; dates of `docProps/core.xml` carry their type.
pub open spec fn leaf_element(canon: Seq<char>, tag: Seq<char>, v: Seq<char>, typed: bool) -> Seq<
    char,
> {
    if typed && (canon == "created"@ || canon == "modified"@) {
        "<"@ + tag + " xsi:type=\"dcterms:W3CDTF\">"@ + escaped(v) + "</"@ + tag + ">"@
    } else {
        "<"@ + tag + ">"@ + escaped(v) + "</"@ + tag + ">"@
    }
}

/// The elements of the first `n` properties of a table that have a value.
pub open spec fn leaf_elements(
    table: Names,
    found: Names,
    props: Json,
    typed: bool,
    n: nat,
) -> Seq<char>
    decreases n,
{
    if n == 0 || n > table.len() {
        Seq::empty()
    } else {
        let before = leaf_elements(table, found, props, typed, (n - 1) as nat);
        match merged_value(table[n - 1], found, props) {
            Some(v) => before + leaf_element(table[n - 1].0, table[n - 1].1, v, typed),
            None => before,
        }
    }
}

fn write_leaf(canon: &str, tag: &str, v: &str, typed: bool) -> (r: String)
    ensures
        r@ == leaf_element(canon@, tag@, v@, typed),
{
    let mut s = copy_text("<");
    s.push_str(tag);
    if typed && (same(canon, "created") || same(canon, "modified")) {
        s.push_str(" xsi:type=\"dcterms:W3CDTF\">");
    } else {
        s.push_str(">");
    }
    s.push_str(xml_escape(v).as_str());
    s.push_str("</");
    s.push_str(tag);
    s.push_str(">");
    s
}

fn push_leaf_elements(
    s: &mut String,
    table: &Vec<(String, String)>,
    found: &Vec<(String, String)>,
    props: &Value,
    typed: bool,
)
    ensures
        final(s)@ == old(s)@ + leaf_elements(
            table.deep_view(),
            found.deep_view(),
            props.deep_view(),
            typed,
            table@.len(),
        ),
{
    let ghost before = s@;
    let ghost tv = table.deep_view();
    let ghost fv = found.deep_view();
    let ghost pv = props.deep_view();
    let mut i: usize = 0;
    assert(s@ =~= before + leaf_elements(tv, fv, pv, typed, 0));
    while i < table.len()
        invariant
            i <= table@.len(),
            tv == table.deep_view(),
            fv == found.deep_view(),
            pv == props.deep_view(),
            s@ == before + leaf_elements(tv, fv, pv, typed, i as nat),
        decreases table@.len() - i,
    {
        assert(tv[i as int] == (table@[i as int].0@, table@[i as int].1@));
        let canon = table[i].0.as_str();
        let tag = table[i].1.as_str();
        let v = match prop_str(props, canon) {
            Some(v) => Some(v),
            None => find_value(found, tag),
        };
        match v {
            Some(t) => {
                let element = write_leaf(canon, tag, t.as_str(), typed);
                s.push_str(element.as_str());
            },
            None => {},
        }
        i = i + 1;
        assert(s@ =~= before + leaf_elements(tv, fv, pv, typed, i as nat));
    }
}

/// What stands before the elements of `docProps/core.xml`.
pub open spec fn core_head() -> Seq<char> {
    "<?xml version=\"1.0\" encoding=\"UTF-8\" standalone=\"yes\"?>\n<cp:coreProperties xmlns:cp=\"http://schemas.openxmlformats.org/package/2006/metadata/core-properties\" xmlns:dc=\"http://purl.org/dc/elements/1.1/\" xmlns:dcterms=\"http://purl.org/dc/terms/\" xmlns:dcmitype=\"http://purl.org/dc/dcmitype/\" xmlns:xsi=\"http://www.w3.org/2001/XMLSchema-instance\">"@
}

/// A `docProps/core.xml` with the values given and those found.
pub open spec fn core_xml(found: Names, props: Json) -> Seq<char> {
    core_head() + leaf_elements(ooxml_core(), found, props, true, ooxml_core().len())
        + "</cp:coreProperties>"@
}

pub fn build_core_xml(found: &Vec<(String, String)>, props: &Value) -> (r: String)
    ensures
        r@ == core_xml(found.deep_view(), props.deep_view()),
{
    let mut s = copy_text(
        "<?xml version=\"1.0\" encoding=\"UTF-8\" standalone=\"yes\"?>\n<cp:coreProperties xmlns:cp=\"http://schemas.openxmlformats.org/package/2006/metadata/core-properties\" xmlns:dc=\"http://purl.org/dc/elements/1.1/\" xmlns:dcterms=\"http://purl.org/dc/terms/\" xmlns:dcmitype=\"http://purl.org/dc/dcmitype/\" xmlns:xsi=\"http://www.w3.org/2001/XMLSchema-instance\">",
    );
    let table = core_names();
    assert(table.deep_view().len() == table@.len());
    push_leaf_elements(&mut s, &table, found, props, true);
    s.push_str("</cp:coreProperties>");
    s
}

/// An OpenDocument `meta.xml` with the values given and those found.
pub open spec fn meta_xml(found: Names, props: Json) -> Seq<char> {
    "<?xml version=\"1.0\" encoding=\"UTF-8\"?>\n<office:document-meta xmlns:office=\"urn:oasis:names:tc:opendocument:xmlns:office:1.0\" xmlns:meta=\"urn:oasis:names:tc:opendocument:xmlns:meta:1.0\" xmlns:dc=\"http://purl.org/dc/elements/1.1/\"><office:meta>"@
        + leaf_elements(odf_meta(), found, props, false, odf_meta().len())
        + "</office:meta></office:document-meta>"@
}

fn build_meta_xml(found: &Vec<(String, String)>, props: &Value) -> (r: String)
    ensures
        r@ == meta_xml(found.deep_view(), props.deep_view()),
{
    let mut s = copy_text(
        "<?xml version=\"1.0\" encoding=\"UTF-8\"?>\n<office:document-meta xmlns:office=\"urn:oasis:names:tc:opendocument:xmlns:office:1.0\" xmlns:meta=\"urn:oasis:names:tc:opendocument:xmlns:meta:1.0\" xmlns:dc=\"http://purl.org/dc/elements/1.1/\"><office:meta>",
    );
    let table = odf_names();
    assert(table.deep_view().len() == table@.len());
    push_leaf_elements(&mut s, &table, found, props, false);
    s.push_str("</office:meta></office:document-meta>");
    s
}

/// A text with `new` in place of what stands from `a` up to `b`.
pub open spec fn spliced(s: Seq<char>, a: int, b: int, new: Seq<char>) -> Seq<char> {
    s.subrange(0, a) + new + s.subrange(b, s.len() as int)
}

fn splice(cs: &Vec<char>, a: usize, b: usize, new: &str) -> (r: String)
    requires
        a <= b <= cs@.len(),
    ensures
        r@ == spliced(cs@, a as int, b as int, new@),
{
    let mut out = String::new();
    push_chars(&mut out, cs, 0, a);
    out.push_str(new);
    push_chars(&mut out, cs, b, cs.len());
    assert(out@ =~= spliced(cs@, a as int, b as int, new@));
    out
}

/// An XML text with a text for an element without attributes: in place of the text that
/// it has, in place of an empty element, or as a new element before the last `before`.
pub open spec fn with_leaf(
    xml: Seq<char>,
    tag: Seq<char>,
    value: Seq<char>,
    before: Seq<char>,
) -> Seq<char> {
    let open = "<"@ + tag + ">"@;
    let close = "</"@ + tag + ">"@;
    let empty = "<"@ + tag + "/>"@;
    let whole = open + escaped(value) + close;
    let o = find_from(xml, open, 0);
    let c = match o {
        Some(p) => find_from(xml, close, p),
        None => None,
    };
    if o is Some && c is Some {
        spliced(xml, o->0 + open.len(), c->0, escaped(value))
    } else {
        match find_from(xml, empty, 0) {
            Some(p) => spliced(xml, p, p + empty.len(), whole),
            None => match find_back(xml, before, xml.len() as int) {
                Some(p) => spliced(xml, p, p, whole),
                None => xml,
            },
        }
    }
}

proof fn lemma_close_behind_open(xml: Seq<char>, tag: Seq<char>, o: int, c: int)
    requires
        matches_at(xml, "<"@ + tag + ">"@, o),
        matches_at(xml, "</"@ + tag + ">"@, c),
        o <= c,
        tag.len() > 0 ==> tag[0] != '/',
        forall|k: int| 0 <= k < tag.len() ==> tag[k] != '<',
    ensures
        o + ("<"@ + tag + ">"@).len() <= c,
{
    reveal_strlit("<");
    reveal_strlit("</");
    reveal_strlit(">");
    let open = "<"@ + tag + ">"@;
    let close = "</"@ + tag + ">"@;
    assert(close[0] == '<');
    assert(close[1] == '/');
    assert(xml.subrange(c, c + close.len())[0] == '<');
    assert(xml[c] == '<');
    if c < o + open.len() {
        let k = c - o;
        assert(xml.subrange(o, o + open.len())[k] == open[k]);
        assert(xml[c] == open[k]);
        if k == 0 {
            assert(xml.subrange(c, c + close.len())[1] == '/');
            assert(xml[c + 1] == '/');
            assert(xml.subrange(o, o + open.len())[1] == open[1]);
            if tag.len() > 0 {
                assert(open[1] == tag[0]);
            } else {
                assert(open[1] == '>');
            }
        } else if k < open.len() - 1 {
            assert(open[k] == tag[k - 1]);
        } else {
            assert(open[k] == '>');
        }
    }
}

/// Sets the text of an element in an XML text.
pub fn set_xml_leaf(xml: &str, tag: &str, value: &str, before: &str) -> (r: String)
    requires
        tag@.len() > 0 ==> tag@[0] != '/',
        forall|k: int| 0 <= k < tag@.len() ==> tag@[k] != '<',
    ensures
        r@ == with_leaf(xml@, tag@, value@, before@),
{
    let cs = chars_of(xml);
    let esc = xml_escape(value);
    let open = concat3("<", tag, ">");
    let close = concat3("</", tag, ">");
    let empty = concat3("<", tag, "/>");
    let whole = concat3(open.as_str(), esc.as_str(), close.as_str());
    let os = chars_of(open.as_str());
    let ks = chars_of(close.as_str());
    let es = chars_of(empty.as_str());
    let total: usize = cs.len();
    match find_text(&cs, &os, 0) {
        Some(o) => match find_text(&cs, &ks, o) {
            Some(c) => {
                proof {
                    lemma_close_behind_open(xml@, tag@, o as int, c as int);
                }
                assert(c + ks@.len() <= total);
                return splice(&cs, o + os.len(), c, esc.as_str());
            },
            None => {},
        },
        None => {},
    }
    match find_text(&cs, &es, 0) {
        Some(p) => {
            assert(p + es@.len() <= total);
            splice(&cs, p, p + es.len(), whole.as_str())
        },
        None => {
            let bs = chars_of(before);
            match rfind_text(&cs, &bs) {
                Some(p) => {
                    assert(p + bs@.len() <= total);
                    splice(&cs, p, p, whole.as_str())
                },
                None => copy_text(xml),
            }
        },
    }
}

/// The texts that a part of an archive holds; none where it cannot be read.
pub open spec fn found_in(archive: Seq<u8>, part: Seq<char>, table: Names) -> Names {
    match zip_entry(archive, part) {
        Ok(xml) => leaf_texts(xml_items(xml, true), table),
        Err(_) => Seq::empty(),
    }
}

fn find_in(archive: &[u8], part: &str, table: &Vec<(String, String)>) -> (r: Vec<(String, String)>)
    ensures
        r.deep_view() == found_in(archive@, part@, table.deep_view()),
{
    match read_zip_entry(archive, part) {
        Ok(xml) => xml_leaf_texts(xml.as_slice(), table),
        Err(_) => {
            let none: Vec<(String, String)> = Vec::new();
            assert(none.deep_view() =~= Seq::<(Seq<char>, Seq<char>)>::empty());
            none
        },
    }
}

/// The `docProps/app.xml` of an archive, or an empty one.
pub open spec fn app_xml(archive: Seq<u8>) -> Seq<char> {
    match zip_entry(archive, "docProps/app.xml"@) {
        Ok(b) => lossy_text(b),
        Err(_) => "<?xml version=\"1.0\" encoding=\"UTF-8\" standalone=\"yes\"?>\n<Properties xmlns=\"http://schemas.openxmlformats.org/officeDocument/2006/extended-properties\"></Properties>"@,
    }
}

/// The `docProps/app.xml` of an archive with the application and the company that are
/// given.
pub open spec fn new_app_xml(archive: Seq<u8>, props: Json) -> Seq<char> {
    let a = app_xml(archive);
    let b = match prop_text(props, "app"@) {
        Some(v) => with_leaf(a, "Application"@, v, "</Properties>"@),
        None => a,
    };
    match prop_text(props, "company"@) {
        Some(v) => with_leaf(b, "Company"@, v, "</Properties>"@),
        None => b,
    }
}

/// The properties that are set in an OOXML archive.
pub open spec fn ooxml_set(props: Json) -> Seq<Seq<char>> {
    given_keys(ooxml_core(), props, ooxml_core().len()) + given_keys(
        ooxml_app(),
        props,
        ooxml_app().len(),
    )
}

/// The new parts of an OOXML archive.
pub open spec fn ooxml_parts(archive: Seq<u8>, props: Json) -> Seq<PartView> {
    let core = if given_keys(ooxml_core(), props, ooxml_core().len()).len() > 0 {
        seq![
            (
                "docProps/core.xml"@,
                encode_utf8(
                    core_xml(found_in(archive, "docProps/core.xml"@, ooxml_core()), props),
                ),
            ),
        ]
    } else {
        Seq::empty()
    };
    if given_keys(ooxml_app(), props, ooxml_app().len()).len() > 0 {
        core.push(("docProps/app.xml"@, encode_utf8(new_app_xml(archive, props))))
    } else {
        core
    }
}

/// `s` with `what` put in before the last occurrence of `mark`.
pub open spec fn put_before_last(s: Seq<char>, mark: Seq<char>, what: Seq<char>) -> Seq<char> {
    match find_back(s, mark, s.len() as int) {
        Some(p) => s.subrange(0, p) + what + s.subrange(p, s.len() as int),
        None => s,
    }
}

fn insert_before_last(s: &str, mark: &str, what: &str) -> (r: String)
    ensures
        r@ == put_before_last(s@, mark@, what@),
{
    let cs = chars_of(s);
    let ms = chars_of(mark);
    match rfind_text(&cs, &ms) {
        Some(p) => {
            let mut out = slice_text(&cs, 0, p);
            out.push_str(what);
            push_chars(&mut out, &cs, p, cs.len());
            out
        },
        None => copy_text(s),
    }
}

/// A part that names another: as it is where it names it already, else with an element
/// before its last end tag; nothing where it cannot be read or needs no change.
pub open spec fn naming_part(
    archive: Seq<u8>,
    part: Seq<char>,
    target: Seq<char>,
    mark: Seq<char>,
    element: Seq<char>,
) -> Seq<PartView> {
    match zip_entry(archive, part) {
        Ok(b) => if contains_text(lossy_text(b), target) {
            Seq::empty()
        } else {
            seq![(part, encode_utf8(put_before_last(lossy_text(b), mark, element)))]
        },
        Err(_) => Seq::empty(),
    }
}

/// The parts that must name a new `docProps/core.xml`.
pub open spec fn core_naming(archive: Seq<u8>) -> Seq<PartView> {
    naming_part(
        archive,
        "[Content_Types].xml"@,
        "docProps/core.xml"@,
        "</Types>"@,
        "<Override PartName=\"/docProps/core.xml\" ContentType=\"application/vnd.openxmlformats-package.core-properties+xml\"/>"@,
    ) + naming_part(
        archive,
        "_rels/.rels"@,
        "docProps/core.xml"@,
        "</Relationships>"@,
        "<Relationship Id=\"rIdMeta\" Type=\"http://schemas.openxmlformats.org/package/2006/relationships/metadata/core-properties\" Target=\"docProps/core.xml\"/>"@,
    )
}

fn push_naming(
    new: &mut Vec<Part>,
    archive: &[u8],
    part: &str,
    target: &str,
    mark: &str,
    element: &str,
)
    ensures
        parts_view(final(new)@) == parts_view(old(new)@) + naming_part(
            archive@,
            part@,
            target@,
            mark@,
            element@,
        ),
{
    let ghost before = parts_view(new@);
    match read_zip_entry(archive, part) {
        Ok(b) => {
            let text = text_of_bytes(b.as_slice());
            if !has_text(text.as_str(), target) {
                let t = insert_before_last(text.as_str(), mark, element);
                push_part(new, copy_text(part), bytes_of_text(t.as_str()));
                assert(parts_view(new@) =~= before + naming_part(
                    archive@,
                    part@,
                    target@,
                    mark@,
                    element@,
                ));
            } else {
                assert(parts_view(new@) =~= before + Seq::<PartView>::empty());
            }
        },
        Err(_) => {
            assert(parts_view(new@) =~= before + Seq::<PartView>::empty());
        },
    }
}

/// Whether `docProps/core.xml` is among new parts and not yet in the archive.
pub open spec fn adds_core(items: Seq<ZipItemView>, new: Seq<PartView>) -> bool {
    (exists|i: int| 0 <= i < new.len() && (#[trigger] new[i]).0 == "docProps/core.xml"@)
        && !has_name(items, "docProps/core.xml"@)
}

/// The parts to replace or add: those given, and those that must name a new
/// `docProps/core.xml`.
pub open spec fn all_new_parts(
    archive: Seq<u8>,
    items: Seq<ZipItemView>,
    new: Seq<PartView>,
    inject_core: bool,
) -> Seq<PartView> {
    if inject_core && adds_core(items, new) {
        new + core_naming(archive)
    } else {
        new
    }
}

fn has_core(new: &Vec<Part>) -> (r: bool)
    ensures
        r == exists|i: int|
            0 <= i < parts_view(new@).len() && (#[trigger] parts_view(new@)[i]).0
                == "docProps/core.xml"@,
{
    let ghost pv = parts_view(new@);
    let mut i: usize = 0;
    while i < new.len()
        invariant
            i <= new@.len(),
            pv == parts_view(new@),
            forall|k: int| 0 <= k < i ==> (#[trigger] pv[k]).0 != "docProps/core.xml"@,
        decreases new@.len() - i,
    {
        assert(pv[i as int].0 == new@[i as int].0@);
        if same(new[i].0.as_str(), "docProps/core.xml") {
            return true;
        }
        i = i + 1;
    }
    false
}

/// An archive with parts replaced or added, every other entry carried over as it is.
/// Bytes that are no archive are refused; beyond that it can fail only where
/// [`may_refuse`] says.
pub fn rewrite_zip(archive: &[u8], new: Vec<Part>, inject_core: bool) -> (r: Result<Vec<u8>, String>)
    ensures
        match zip_items(archive@) {
            Err(e) => r is Err && r->Err_0@ == e,
            Ok(items) => {
                let all = all_new_parts(archive@, items, parts_view(new@), inject_core);
                match r {
                    Ok(bytes) => is_replaced(archive@, items, all, bytes@),
                    Err(_) => may_refuse(archive@, items, all),
                }
            },
        },
{
    let items = match all_items(archive) {
        Ok(v) => v,
        Err(e) => {
            return Err(e);
        },
    };
    let ghost pv = parts_view(new@);
    let mut new = new;
    if inject_core && has_core(&new) && !items_have(&items, "docProps/core.xml") {
        push_naming(
            &mut new,
            archive,
            "[Content_Types].xml",
            "docProps/core.xml",
            "</Types>",
            "<Override PartName=\"/docProps/core.xml\" ContentType=\"application/vnd.openxmlformats-package.core-properties+xml\"/>",
        );
        push_naming(
            &mut new,
            archive,
            "_rels/.rels",
            "docProps/core.xml",
            "</Relationships>",
            "<Relationship Id=\"rIdMeta\" Type=\"http://schemas.openxmlformats.org/package/2006/relationships/metadata/core-properties\" Target=\"docProps/core.xml\"/>",
        );
        assert(parts_view(new@) =~= pv + core_naming(archive@));
    }
    replace_parts(archive, &items, &new)
}

/// What writing properties into an archive promises: it is refused where none is given
/// or the bytes are no archive; else the archive holds its parts with the new ones, as far
/// as its own entries can be read, and it can fail only where [`may_refuse`] says.
pub open spec fn is_rewritten(
    r: Result<(Vec<u8>, Vec<String>), String>,
    archive: Seq<u8>,
    new: Seq<PartView>,
    set: Seq<Seq<char>>,
    inject_core: bool,
) -> bool {
    if set.len() == 0 {
        r is Err && r->Err_0@ == "no recognized metadata keys supplied"@
    } else {
        match zip_items(archive) {
            Err(e) => r is Err && r->Err_0@ == e,
            Ok(items) => {
                let all = all_new_parts(archive, items, new, inject_core);
                match r {
                    Ok(p) => p.1.deep_view() == set && is_replaced(archive, items, all, p.0@),
                    Err(_) => may_refuse(archive, items, all),
                }
            },
        }
    }
}

/// Writes properties into an OOXML archive; also says which were set.
pub fn write_ooxml_meta(archive: &[u8], props: &Value) -> (r: Result<(Vec<u8>, Vec<String>), String>)
    ensures
        is_rewritten(
            r,
            archive@,
            ooxml_parts(archive@, props.deep_view()),
            ooxml_set(props.deep_view()),
            given_keys(ooxml_core(), props.deep_view(), ooxml_core().len()).len() > 0,
        ),
{
    let ghost pv = props.deep_view();
    let table = core_names();
    let apps = app_names();
    assert(table.deep_view().len() == table@.len());
    assert(apps.deep_view().len() == apps@.len());
    let mut set = keys_given(&table, props);
    let more = keys_given(&apps, props);
    assert(set.deep_view().len() == set@.len());
    assert(more.deep_view().len() == more@.len());
    let touched = set.len() > 0;
    let patched = more.len() > 0;
    let mut new: Vec<Part> = Vec::new();
    assert(parts_view(new@) =~= Seq::<PartView>::empty());
    if touched {
        let found = find_in(archive, "docProps/core.xml", &table);
        let xml = build_core_xml(&found, props);
        push_part(&mut new, copy_text("docProps/core.xml"), bytes_of_text(xml.as_str()));
    }
    if patched {
        let mut xml = match read_zip_entry(archive, "docProps/app.xml") {
            Ok(b) => text_of_bytes(b.as_slice()),
            Err(_) => copy_text(
                "<?xml version=\"1.0\" encoding=\"UTF-8\" standalone=\"yes\"?>\n<Properties xmlns=\"http://schemas.openxmlformats.org/officeDocument/2006/extended-properties\"></Properties>",
            ),
        };
        proof {
            reveal_strlit("Application");
            reveal_strlit("Company");
        }
        match prop_str(props, "app") {
            Some(v) => {
                xml = set_xml_leaf(xml.as_str(), "Application", v.as_str(), "</Properties>");
            },
            None => {},
        }
        match prop_str(props, "company") {
            Some(v) => {
                xml = set_xml_leaf(xml.as_str(), "Company", v.as_str(), "</Properties>");
            },
            None => {},
        }
        assert(xml@ == new_app_xml(archive@, pv));
        push_part(&mut new, copy_text("docProps/app.xml"), bytes_of_text(xml.as_str()));
    }
    assert(parts_view(new@) =~= ooxml_parts(archive@, pv));
    crate::deep::append_deep(&mut set, more);
    if new.len() == 0 {
        return Err(copy_text("no recognized metadata keys supplied"));
    }
    match rewrite_zip(archive, new, touched) {
        Ok(bytes) => Ok((bytes, set)),
        Err(e) => Err(e),
    }
}

/// The new part of an OpenDocument archive.
pub open spec fn odf_parts(archive: Seq<u8>, props: Json) -> Seq<PartView> {
    seq![
        (
            "meta.xml"@,
            encode_utf8(meta_xml(found_in(archive, "meta.xml"@, odf_meta()), props)),
        ),
    ]
}

/// Writes properties into an OpenDocument archive; also says which were set. The manifest
/// is still to be looked at: see [`ensure_odf_manifest`].
pub fn put_odf_meta(archive: &[u8], props: &Value) -> (r: Result<(Vec<u8>, Vec<String>), String>)
    ensures
        is_rewritten(
            r,
            archive@,
            odf_parts(archive@, props.deep_view()),
            given_keys(odf_meta(), props.deep_view(), odf_meta().len()),
            false,
        ),
{
    let table = odf_names();
    assert(table.deep_view().len() == table@.len());
    let set = keys_given(&table, props);
    assert(set.deep_view().len() == set@.len());
    if set.len() == 0 {
        return Err(copy_text("no recognized metadata keys supplied"));
    }
    let found = find_in(archive, "meta.xml", &table);
    let xml = build_meta_xml(&found, props);
    let mut new: Vec<Part> = Vec::new();
    assert(parts_view(new@) =~= Seq::<PartView>::empty());
    push_part(&mut new, copy_text("meta.xml"), bytes_of_text(xml.as_str()));
    assert(parts_view(new@) =~= odf_parts(archive@, props.deep_view()));
    match rewrite_zip(archive, new, false) {
        Ok(bytes) => Ok((bytes, set)),
        Err(e) => Err(e),
    }
}

/// The manifest with an entry for `meta.xml`; nothing where it has one or there is no
/// manifest.
pub open spec fn new_manifest(archive: Seq<u8>) -> Seq<PartView> {
    naming_part(
        archive,
        "META-INF/manifest.xml"@,
        "full-path=\"meta.xml\""@,
        "</manifest:manifest>"@,
        "<manifest:file-entry manifest:full-path=\"meta.xml\" manifest:media-type=\"text/xml\"/>"@,
    )
}

/// Sees to it that the manifest of an OpenDocument archive has an entry for `meta.xml`.
pub fn ensure_odf_manifest(archive: Vec<u8>) -> (r: Result<Vec<u8>, String>)
    ensures
        ({
            let new = new_manifest(archive@);
            if new.len() == 0 {
                r is Ok && r->Ok_0@ == archive@
            } else {
                match zip_items(archive@) {
                    Err(e) => r is Err && r->Err_0@ == e,
                    Ok(items) => match r {
                        Ok(bytes) => is_replaced(archive@, items, new, bytes@),
                        Err(_) => may_refuse(archive@, items, new),
                    },
                }
            }
        }),
{
    let mut new: Vec<Part> = Vec::new();
    assert(parts_view(new@) =~= Seq::<PartView>::empty());
    push_naming(
        &mut new,
        archive.as_slice(),
        "META-INF/manifest.xml",
        "full-path=\"meta.xml\"",
        "</manifest:manifest>",
        "<manifest:file-entry manifest:full-path=\"meta.xml\" manifest:media-type=\"text/xml\"/>",
    );
    assert(parts_view(new@) =~= new_manifest(archive@));
    if new.len() == 0 {
        return Ok(archive);
    }
    rewrite_zip(archive.as_slice(), new, false)
}

/// Writes properties into an OpenDocument archive and declares the part that holds them;
/// also says which were set. It is refused where none is given or the bytes are no
/// archive; beyond that it can fail only where one of the two steps can.
pub fn write_odf_meta(archive: &[u8], props: &Value) -> (r: Result<(Vec<u8>, Vec<String>), String>)
    ensures
        ({
            let set = given_keys(odf_meta(), props.deep_view(), odf_meta().len());
            &&& set.len() == 0 ==> r is Err && r->Err_0@ == "no recognized metadata keys supplied"@
            &&& set.len() > 0 && zip_items(archive@) is Err ==> r is Err && r->Err_0@ == zip_items(
                archive@,
            )->Err_0
            &&& r is Ok ==> r->Ok_0.1.deep_view() == set
            &&& r is Ok ==> match zip_items(archive@) {
                Ok(items) => match replaced_parts(items, odf_parts(archive@, props.deep_view())) {
                    Some(parts) => exists|middle: Seq<u8>|
                        #[trigger] holds_parts(middle, parts) && is_declared(middle, r->Ok_0.0@),
                    None => true,
                },
                Err(_) => false,
            }
            &&& r is Err && set.len() > 0 && zip_items(archive@) is Ok ==> {
                let items = zip_items(archive@)->Ok_0;
                let new = odf_parts(archive@, props.deep_view());
                may_refuse(archive@, items, new) || exists|middle: Seq<u8>|
                    #[trigger] holds_parts(middle, replaced_parts(items, new)->0)
                        && new_manifest(middle).len() > 0 && may_refuse(
                        middle,
                        as_items(replaced_parts(items, new)->0),
                        new_manifest(middle),
                    )
            }
        }),
{
    match put_odf_meta(archive, props) {
        Err(e) => Err(e),
        Ok(p) => {
            let (bytes, set) = p;
            let ghost middle = bytes@;
            match ensure_odf_manifest(bytes) {
                Ok(b) => {
                    assert(is_declared(middle, b@));
                    Ok((b, set))
                },
                Err(e) => Err(e),
            }
        },
    }
}

/// Whether an archive is another one with `meta.xml` declared in its manifest: the same,
/// where it is declared already or there is no manifest.
pub open spec fn is_declared(before: Seq<u8>, after: Seq<u8>) -> bool {
    let new = new_manifest(before);
    if new.len() == 0 {
        after == before
    } else {
        match zip_items(before) {
            Ok(items) => match replaced_parts(items, new) {
                Some(parts) => holds_parts(after, parts),
                None => true,
            },
            Err(_) => false,
        }
    }
}

// ── PDF ─────────────────────────────────────────────────────────────────────

pub open spec fn digits_at(s: Seq<char>, i: int, n: int) -> bool {
    0 <= i && i + n <= s.len() && forall|k: int| i <= k < i + n ==> is_digit(#[trigger] s[k])
}

pub open spec fn char_at(s: Seq<char>, i: int, c: char) -> bool {
    0 <= i < s.len() && s[i] == c
}

/// The number that two digits make.
pub open spec fn pair_value(s: Seq<char>, i: int) -> int {
    (s[i] as int - '0' as int) * 10 + (s[i + 1] as int - '0' as int)
}

/// Whether two digits make a number from `lo` to `hi`.
pub open spec fn pair_within(s: Seq<char>, i: int, lo: int, hi: int) -> bool {
    digits_at(s, i, 2) && lo <= pair_value(s, i) <= hi
}

/// Where an ISO 8601 date ends that a text starts with, `YYYY-MM-DD` or `YYYYMMDD`.
pub open spec fn iso_date_end(s: Seq<char>, marked: bool) -> Option<int> {
    if marked {
        if digits_at(s, 0, 4) && char_at(s, 4, '-') && pair_within(s, 5, 1, 12) && char_at(
            s,
            7,
            '-',
        ) && pair_within(s, 8, 1, 31) {
            Some(10)
        } else {
            None
        }
    } else if digits_at(s, 0, 4) && pair_within(s, 4, 1, 12) && pair_within(s, 6, 1, 31) {
        Some(8)
    } else {
        None
    }
}

/// Where minutes or seconds up to `hi` end that stand at `i`, behind a colon where the parts
/// are marked; `i` where none do.
pub open spec fn iso_part_end(s: Seq<char>, i: int, hi: int, marked: bool) -> int {
    let at = if marked {
        i + 1
    } else {
        i
    };
    if (marked ==> char_at(s, i, ':')) && pair_within(s, at, 0, hi) {
        at + 2
    } else {
        i
    }
}

/// Where an ISO 8601 time ends that starts at `i`: hours, and minutes and seconds where
/// they follow.
pub open spec fn iso_time_end(s: Seq<char>, i: int, marked: bool) -> Option<int> {
    if pair_within(s, i, 0, 24) {
        let minutes = iso_part_end(s, i + 2, 59, marked);
        Some(
            if minutes > i + 2 {
                iso_part_end(s, minutes, 60, marked)
            } else {
                minutes
            },
        )
    } else {
        None
    }
}

/// The end of the digits from `i` on.
pub open spec fn digit_run(s: Seq<char>, i: int) -> int
    decreases s.len() - i,
{
    if 0 <= i < s.len() && is_digit(s[i]) {
        digit_run(s, i + 1)
    } else {
        i
    }
}

/// Where the fraction of a second ends that stands at `i`; `i` where none does.
pub open spec fn fraction_end(s: Seq<char>, i: int) -> int {
    if (char_at(s, i, '.') || char_at(s, i, ',')) && digits_at(s, i + 1, 1) {
        digit_run(s, i + 1)
    } else {
        i
    }
}

/// Whether an ISO 8601 time zone, or nothing, is all that stands from `i` on: `Z`, or a
/// sign and hours, and minutes where they follow.
pub open spec fn is_zone(s: Seq<char>, i: int) -> bool {
    ||| i == s.len()
    ||| char_at(s, i, 'Z') && i + 1 == s.len()
    ||| (char_at(s, i, '+') || char_at(s, i, '-')) && pair_within(s, i + 1, 0, 23) && {
        ||| i + 3 == s.len()
        ||| char_at(s, i + 3, ':') && pair_within(s, i + 4, 0, 59) && i + 6 == s.len()
        ||| pair_within(s, i + 3, 0, 59) && i + 5 == s.len()
    }
}

/// Where the last field of an ISO 8601 date or datetime ends, the fraction of a second and
/// the zone left out; nothing where a text is none.
pub open spec fn iso_fields_end(s: Seq<char>, marked: bool) -> Option<int> {
    match iso_date_end(s, marked) {
        None => None,
        Some(d) => if d == s.len() {
            Some(d)
        } else if !char_at(s, d, 'T') {
            None
        } else {
            match iso_time_end(s, d + 1, marked) {
                None => None,
                Some(t) => if is_zone(s, fraction_end(s, t)) {
                    Some(t)
                } else {
                    None
                },
            }
        },
    }
}

/// A date as PDF writes it: the digits of the fields of an ISO 8601 date or datetime,
/// behind `D:`. Any other text is left as it is.
pub open spec fn pdf_date(s: Seq<char>) -> Seq<char> {
    match iso_fields_end(s, char_at(s, 4, '-')) {
        Some(n) => "D:"@ + digits_among(s, n as nat),
        None => s,
    }
}

fn has_digits_at(s: &Vec<char>, i: usize, n: usize) -> (r: bool)
    ensures
        r == digits_at(s@, i as int, n as int),
        r ==> i + n <= usize::MAX,
{
    if n > s.len() || i > s.len() - n {
        return false;
    }
    let mut k: usize = 0;
    while k < n
        invariant
            k <= n,
            i + n <= s@.len() <= usize::MAX,
            forall|j: int| i <= j < i + k ==> is_digit(#[trigger] s@[j]),
        decreases n - k,
    {
        if !char_is_digit(s[i + k]) {
            return false;
        }
        k = k + 1;
    }
    true
}

fn has_char_at(s: &Vec<char>, i: usize, c: char) -> (r: bool)
    ensures
        r == char_at(s@, i as int, c),
        r ==> i + 1 <= usize::MAX,
{
    i < s.len() && s[i] == c
}

fn has_pair_within(s: &Vec<char>, i: usize, lo: u32, hi: u32) -> (r: bool)
    ensures
        r == pair_within(s@, i as int, lo as int, hi as int),
        r ==> i + 2 <= usize::MAX,
{
    if !has_digits_at(s, i, 2) {
        return false;
    }
    assert(is_digit(s@[i as int]) && is_digit(s@[i + 1]));
    let v: u32 = (s[i] as u32 - '0' as u32) * 10 + (s[i + 1] as u32 - '0' as u32);
    lo <= v && v <= hi
}

fn find_part_end(s: &Vec<char>, i: usize, hi: u32, marked: bool) -> (r: usize)
    requires
        i <= s@.len(),
    ensures
        r == iso_part_end(s@, i as int, hi as int, marked),
        i <= r <= s@.len(),
{
    let at: usize = if marked {
        if !has_char_at(s, i, ':') {
            return i;
        }
        i + 1
    } else {
        i
    };
    if has_pair_within(s, at, 0, hi) {
        at + 2
    } else {
        i
    }
}

fn find_fraction_end(s: &Vec<char>, i: usize) -> (r: usize)
    requires
        i <= s@.len(),
    ensures
        r == fraction_end(s@, i as int),
        i <= r <= s@.len(),
{
    if (has_char_at(s, i, '.') || has_char_at(s, i, ',')) && has_digits_at(s, i + 1, 1) {
        let mut j: usize = i + 1;
        while j < s.len() && char_is_digit(s[j])
            invariant
                i < j <= s@.len(),
                digit_run(s@, i + 1) == digit_run(s@, j as int),
            decreases s@.len() - j,
        {
            j = j + 1;
        }
        j
    } else {
        i
    }
}

fn zone_at(s: &Vec<char>, i: usize) -> (r: bool)
    requires
        i <= s@.len(),
    ensures
        r == is_zone(s@, i as int),
{
    if i == s.len() || (has_char_at(s, i, 'Z') && i + 1 == s.len()) {
        return true;
    }
    if !(has_char_at(s, i, '+') || has_char_at(s, i, '-')) || !has_pair_within(s, i + 1, 0, 23) {
        return false;
    }
    i + 3 == s.len() || (has_char_at(s, i + 3, ':') && has_pair_within(s, i + 4, 0, 59) && i + 6
        == s.len()) || (has_pair_within(s, i + 3, 0, 59) && i + 5 == s.len())
}

fn find_fields_end(s: &Vec<char>, marked: bool) -> (r: Option<usize>)
    ensures
        match r {
            Some(n) => iso_fields_end(s@, marked) == Some(n as int) && n <= s@.len(),
            None => iso_fields_end(s@, marked) is None,
        },
{
    let d: usize = if marked {
        if !(has_digits_at(s, 0, 4) && has_char_at(s, 4, '-') && has_pair_within(s, 5, 1, 12)
            && has_char_at(s, 7, '-') && has_pair_within(s, 8, 1, 31)) {
            return None;
        }
        10
    } else {
        if !(has_digits_at(s, 0, 4) && has_pair_within(s, 4, 1, 12) && has_pair_within(
            s,
            6,
            1,
            31,
        )) {
            return None;
        }
        8
    };
    if d == s.len() {
        return Some(d);
    }
    if !has_char_at(s, d, 'T') || !has_pair_within(s, d + 1, 0, 24) {
        return None;
    }
    let minutes = find_part_end(s, d + 3, 59, marked);
    let t = if minutes > d + 3 {
        find_part_end(s, minutes, 60, marked)
    } else {
        minutes
    };
    if zone_at(s, find_fraction_end(s, t)) {
        Some(t)
    } else {
        None
    }
}

proof fn lemma_digits_of_front(s: Seq<char>, n: nat, k: nat)
    requires
        k <= n <= s.len(),
    ensures
        digits_among(s.take(n as int), k) == digits_among(s, k),
    decreases k,
{
    if k > 0 {
        lemma_digits_of_front(s, n, (k - 1) as nat);
    }
}

pub fn to_pdf_date(s: &str) -> (r: String)
    ensures
        r@ == pdf_date(s@),
{
    let cs = chars_of(s);
    match find_fields_end(&cs, has_char_at(&cs, 4, '-')) {
        Some(n) => {
            let fields = slice_text(&cs, 0, n);
            proof {
                assert(fields@ =~= s@.take(n as int));
                lemma_digits_of_front(s@, n as nat, n as nat);
            }
            concat2("D:", keep_digits(fields.as_str()).as_str())
        },
        None => copy_text(s),
    }
}

/// The entries of an information dictionary that the first `n` properties set.
pub open spec fn info_entries(table: Names, props: Json, n: nat) -> Names
    decreases n,
{
    if n == 0 || n > table.len() {
        Seq::empty()
    } else {
        let before = info_entries(table, props, (n - 1) as nat);
        let (canon, key) = table[n - 1];
        match prop_text(props, canon) {
            Some(v) => before.push(
                (
                    key,
                    if canon == "created"@ || canon == "modified"@ {
                        pdf_date(v)
                    } else {
                        v
                    },
                ),
            ),
            None => before,
        }
    }
}

/// The entries of an information dictionary that properties set, and which properties.
pub fn write_pdf_meta(props: &Value) -> (r: Result<(Vec<(String, String)>, Vec<String>), String>)
    ensures
        ({
            let pv = props.deep_view();
            let set = given_keys(pdf_info(), pv, pdf_info().len());
            if set.len() == 0 {
                r is Err && r->Err_0@ == "no recognized metadata keys supplied"@
            } else {
                r is Ok && r->Ok_0.0.deep_view() == info_entries(pdf_info(), pv, pdf_info().len())
                    && r->Ok_0.1.deep_view() == set
            }
        }),
{
    let table = info_names();
    let ghost tv = table.deep_view();
    let ghost pv = props.deep_view();
    assert(tv.len() == table@.len());
    let set = keys_given(&table, props);
    assert(set.deep_view().len() == set@.len());
    if set.len() == 0 {
        return Err(copy_text("no recognized metadata keys supplied"));
    }
    let mut out: Vec<(String, String)> = Vec::new();
    let mut i: usize = 0;
    assert(out.deep_view() =~= Seq::<(Seq<char>, Seq<char>)>::empty());
    while i < table.len()
        invariant
            i <= table@.len(),
            tv == table.deep_view(),
            pv == props.deep_view(),
            out.deep_view() == info_entries(tv, pv, i as nat),
        decreases table@.len() - i,
    {
        assert(tv[i as int] == (table@[i as int].0@, table@[i as int].1@));
        let canon = table[i].0.as_str();
        match prop_str(props, canon) {
            Some(v) => {
                let t = if same(canon, "created") || same(canon, "modified") {
                    to_pdf_date(v.as_str())
                } else {
                    v
                };
                add_name(&mut out, table[i].1.as_str(), t.as_str());
            },
            None => {},
        }
        i = i + 1;
    }
    Ok((out, set))
}

/// How the properties of a document are kept.
#[derive(Clone, Copy, PartialEq, Eq, Structural)]
pub enum MetaKind {
    Ooxml,
    Odf,
    Pdf,
}

pub open spec fn meta_kind(ext: Seq<char>) -> Result<MetaKind, Seq<char>> {
    if ooxml_ext(ext) {
        Ok(MetaKind::Ooxml)
    } else if odf_ext(ext) {
        Ok(MetaKind::Odf)
    } else if ext == "pdf"@ {
        Ok(MetaKind::Pdf)
    } else {
        Err("unsupported format for metadata: "@ + ext)
    }
}

/// Which properties are to be written, and how the document keeps them.
pub open spec fn meta_to_write(opts: Json, ext: Seq<char>) -> Result<(Json, MetaKind), Seq<char>> {
    match wanted_props(opts) {
        Ok(props) => match meta_kind(ext) {
            Ok(k) => Ok((props, k)),
            Err(e) => Err(e),
        },
        Err(e) => Err(e),
    }
}

/// Which properties are to be written, and how the document keeps them.
pub fn op_meta_write(opts: &Value, ext: &str) -> (r: Result<(Value, MetaKind), String>)
    ensures
        match r {
            Ok(p) => meta_to_write(opts.deep_view(), ext@) == Ok::<(Json, MetaKind), Seq<char>>(
                (p.0.deep_view(), p.1),
            ),
            Err(e) => meta_to_write(opts.deep_view(), ext@) == Err::<(Json, MetaKind), Seq<char>>(
                e@,
            ),
        },
{
    match read_props(opts) {
        Ok(props) => if is_ooxml(ext) {
            Ok((props, MetaKind::Ooxml))
        } else if is_odf(ext) {
            Ok((props, MetaKind::Odf))
        } else if same(ext, "pdf") {
            Ok((props, MetaKind::Pdf))
        } else {
            Err(concat2("unsupported format for metadata: ", ext))
        },
        Err(e) => Err(e),
    }
}

// ── what properties are written as ──────────────────────────────────────────

/// An element as it is written: its tag and what is said in it.
pub type Element = (TagView, Seq<EventView>);

pub open spec fn is_element(x: Element) -> bool {
    forall|i: int| 0 <= i < x.1.len() ==> #[trigger] x.1[i] is Text || x.1[i] is Reference
}

pub open spec fn element_events(xs: Seq<Element>) -> Seq<EventView>
    decreases xs.len(),
{
    if xs.len() == 0 {
        Seq::empty()
    } else {
        element_events(xs.drop_last()) + (seq![EventView::Start(xs.last().0)] + xs.last().1
            + seq![EventView::End(xs.last().0.name)])
    }
}

pub open spec fn leaf_on(st: LeafView, evs: Seq<EventView>, table: Names) -> LeafView
    decreases evs.len(),
{
    if evs.len() == 0 {
        st
    } else {
        leaf_step(leaf_on(st, evs.drop_last(), table), evs.last(), table)
    }
}

proof fn lemma_leaf_on(st: LeafView, a: Seq<EventView>, b: Seq<EventView>, table: Names)
    ensures
        leaf_on(st, a + b, table) == leaf_on(leaf_on(st, a, table), b, table),
    decreases b.len(),
{
    if b.len() == 0 {
        assert(a + b =~= a);
    } else {
        lemma_leaf_on(st, a, b.drop_last(), table);
        assert((a + b).drop_last() =~= a + b.drop_last());
        assert((a + b).last() == b.last());
    }
}

proof fn lemma_leaf_one(st: LeafView, e: EventView, table: Names)
    ensures
        leaf_on(st, seq![e], table) == leaf_step(st, e, table),
{
    assert(seq![e].drop_last() =~= Seq::<EventView>::empty());
    assert(leaf_on(st, Seq::<EventView>::empty(), table) == st);
    assert(seq![e].last() == e);
}

proof fn lemma_leaf_run(evs: Seq<EventView>, table: Names, n: nat)
    requires
        n <= evs.len(),
    ensures
        leaf_run(evs, table, n) == leaf_on(
            LeafView { out: Seq::empty(), open: None, text: Seq::empty() },
            evs.take(n as int),
            table,
        ),
    decreases n,
{
    if n > 0 {
        lemma_leaf_run(evs, table, (n - 1) as nat);
        assert(evs.take(n as int).drop_last() =~= evs.take(n - 1));
        assert(evs.take(n as int).last() == evs[n - 1]);
    }
}

proof fn lemma_leaf_words(st: LeafView, evs: Seq<EventView>, table: Names)
    requires
        forall|i: int| 0 <= i < evs.len() ==> #[trigger] evs[i] is Text || evs[i] is Reference,
    ensures
        st.open is Some ==> leaf_on(st, evs, table) == (LeafView {
            text: st.text + said(evs),
            ..st
        }),
        st.open is None ==> leaf_on(st, evs, table) == st,
    decreases evs.len(),
{
    if evs.len() == 0 {
        assert(st.text + said(evs) =~= st.text);
    } else {
        let front = evs.drop_last();
        assert forall|i: int| 0 <= i < front.len() implies #[trigger] front[i] is Text
            || front[i] is Reference by {
            assert(front[i] == evs[i]);
        }
        lemma_leaf_words(st, front, table);
        let ev = evs.last();
        assert(ev == evs[evs.len() - 1]);
        events_say_their_text(ev);
        assert(st.text + said(front) + said_by(ev) =~= st.text + said(evs));
    }
}

/// Of elements that are written one after the other, those of the table are read, each with
/// what is said in it, and no others.
pub proof fn listed_elements_are_read(xs: Seq<Element>, table: Names)
    requires
        forall|k: int| 0 <= k < xs.len() ==> is_element(#[trigger] xs[k]),
    ensures
        leaf_texts(element_events(xs), table) == xs.filter(
            |x: Element|
                exists|i: int| 0 <= i < table.len() && (#[trigger] table[i]).1 == x.0.name,
        ).map_values(|x: Element| (x.0.name, said(x.1))),
{
    let evs = element_events(xs);
    lemma_leaf_run(evs, table, evs.len());
    assert(evs.take(evs.len() as int) =~= evs);
    lemma_leaf_items(xs, table);
}

proof fn lemma_leaf_items(xs: Seq<Element>, table: Names)
    requires
        forall|k: int| 0 <= k < xs.len() ==> is_element(#[trigger] xs[k]),
    ensures
        ({
            let now = leaf_on(
                LeafView { out: Seq::empty(), open: None, text: Seq::empty() },
                element_events(xs),
                table,
            );
            &&& now.open is None
            &&& now.out == xs.filter(
                |x: Element|
                    exists|i: int| 0 <= i < table.len() && (#[trigger] table[i]).1 == x.0.name,
            ).map_values(|x: Element| (x.0.name, said(x.1)))
        }),
    decreases xs.len(),
{
    reveal(Seq::filter);
    let st = LeafView { out: Seq::empty(), open: None, text: Seq::empty() };
    let is = |x: Element|
        exists|i: int| 0 <= i < table.len() && (#[trigger] table[i]).1 == x.0.name;
    let tell = |x: Element| (x.0.name, said(x.1));
    if xs.len() == 0 {
        assert(xs.filter(is).map_values(tell) =~= Seq::<(Seq<char>, Seq<char>)>::empty());
    } else {
        let front = xs.drop_last();
        assert forall|k: int| 0 <= k < front.len() implies is_element(#[trigger] front[k]) by {
            assert(front[k] == xs[k]);
        }
        lemma_leaf_items(front, table);
        let x = xs.last();
        assert(x == xs[xs.len() - 1]);
        let was = leaf_on(st, element_events(front), table);
        let a = seq![EventView::Start(x.0)];
        let e = seq![EventView::End(x.0.name)];
        lemma_leaf_on(st, element_events(front), a + x.1 + e, table);
        lemma_leaf_on(was, a + x.1, e, table);
        lemma_leaf_on(was, a, x.1, table);
        lemma_leaf_one(was, a[0], table);
        let one = leaf_on(was, a, table);
        lemma_leaf_words(one, x.1, table);
        let two = leaf_on(one, x.1, table);
        lemma_leaf_one(two, e[0], table);
        assert(is_listed_tag(table, x.0.name) == is(x));
        if is(x) {
            assert(two.text =~= said(x.1));
            assert(xs.filter(is).map_values(tell) =~= front.filter(is).map_values(tell).push(
                tell(x),
            ));
        }
    }
}

/// A property that is given is written, one that is not keeps the value that was found, and one
/// that is neither is left out.
pub proof fn given_values_go_before_found_ones(
    canon: Seq<char>,
    tag: Seq<char>,
    found: Names,
    props: Json,
)
    ensures
        prop_text(props, canon) is Some ==> merged_value((canon, tag), found, props) == prop_text(
            props,
            canon,
        ),
        prop_text(props, canon) is None ==> ({
            let v = merged_value((canon, tag), found, props);
            &&& v is None <==> forall|i: int|
                0 <= i < found.len() ==> (#[trigger] found[i]).0 != tag
            &&& v is Some ==> exists|i: int|
                0 <= i < found.len() && (#[trigger] found[i]) == (tag, v->0) && forall|k: int|
                    0 <= k < i ==> (#[trigger] found[k]).0 != tag
        }),
{
    lemma_first_of_name(found, tag, 0);
}

proof fn lemma_first_of_name(m: Names, key: Seq<char>, from: int)
    requires
        0 <= from <= m.len(),
    ensures
        ({
            let v = first_value(m, key, from);
            &&& v is None <==> forall|i: int|
                from <= i < m.len() ==> (#[trigger] m[i]).0 != key
            &&& v is Some ==> exists|i: int|
                from <= i < m.len() && (#[trigger] m[i]) == (key, v->0) && forall|k: int|
                    from <= k < i ==> (#[trigger] m[k]).0 != key
        }),
    decreases m.len() - from,
{
    if from < m.len() {
        if m[from].0 == key {
            assert(m[from] == (key, m[from].1));
        } else {
            lemma_first_of_name(m, key, from + 1);
            let v = first_value(m, key, from);
            if v is Some {
                let i = choose|i: int|
                    from + 1 <= i < m.len() && (#[trigger] m[i]) == (key, v->0) && forall|k: int|
                        from + 1 <= k < i ==> (#[trigger] m[k]).0 != key;
                assert(m[i] == (key, v->0));
            }
        }
    }
}

/// The properties that are said to be set are those of the table that are given, in its order.
pub proof fn set_keys_are_the_given_ones(table: Names, props: Json, n: nat)
    requires
        n <= table.len(),
    ensures
        given_keys(table, props, n) == table.take(n as int).filter(
            |e: (Seq<char>, Seq<char>)| prop_text(props, e.0) is Some,
        ).map_values(|e: (Seq<char>, Seq<char>)| e.0),
    decreases n,
{
    reveal(Seq::filter);
    let part = table.take(n as int);
    let is = |e: (Seq<char>, Seq<char>)| prop_text(props, e.0) is Some;
    let get = |e: (Seq<char>, Seq<char>)| e.0;
    if n > 0 {
        set_keys_are_the_given_ones(table, props, (n - 1) as nat);
        assert(part.drop_last() =~= table.take(n - 1));
        assert(part.last() == table[n - 1]);
        if is(table[n - 1]) {
            assert(part.filter(is).map_values(get) =~= part.drop_last().filter(is).map_values(
                get,
            ).push(get(table[n - 1])));
        }
    } else {
        assert(part.filter(is).map_values(get) =~= Seq::<Seq<char>>::empty());
    }
}

} // verus!
